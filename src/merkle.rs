//! The sparse Merkle tree over the node store.
use crate::hash::{compress, compress_pair, default_hash, gen_default_hashes, NodeHash, HASH_LEN};
use crate::keys::{
    be_bytes, be_bytes_of, be_value, key_height, key_index, lemma_be_round_trip,
    lemma_node_key_round_trip, node_key, node_key_spec, read_be_u32,
};
use crate::model::{
    add_hash_ops, add_subtree_ops, add_subtree_root_ops, after_add_hashes, capacity,
    effective_value, is_pow2, lemma_aligned_run_fits, lemma_apply_ops_wf, lemma_count_sum,
    lemma_ops_wf_append, lemma_pow2_half, level, level_ops, log2, ops_wf, pair_up, parent_count,
    parent_value, path_ops, remove_ops, set_ops, store_wf, stored_count, stored_value,
    subtree_build_ops, COUNTS, HEIGHT, VALUES,
};
use crate::store::{
    new_transaction, pending_ops, store_columns, store_contents, store_entries, store_get,
    store_write, transaction_delete, transaction_put,
};
use kvdb::DBTransaction;
use kvdb_memorydb::InMemory;
use vstd::prelude::*;

verus! {

/// A fixed-height sparse Merkle tree whose nodes live in a key-value store.
pub struct MerkleTree {
    db: InMemory,
    default_hashes: Vec<NodeHash>,
}

/// A stored node, as `get_all_nodes` lists it.
pub struct Node {
    pub index: u32,
    pub height: u32,
    pub value: NodeHash,
}

/// The siblings along the path from a leaf to the top, and whether the path's node is the
/// left child at each level.
pub struct MerkleProof {
    pub sibling: Vec<NodeHash>,
    pub path: Vec<bool>,
}

impl MerkleTree {
    /// What the store holds.
    pub closed spec fn contents(&self) -> Map<(u32, Seq<u8>), Seq<u8>> {
        store_contents(self.db)
    }

    /// The store's columns.
    pub closed spec fn columns(&self) -> Set<u32> {
        store_columns(self.db)
    }

    /// The cached default values, by height.
    pub closed spec fn defaults(&self) -> Seq<Seq<u8>> {
        self.default_hashes@.map_values(|v: Vec<u8>| v@)
    }

    /// The store is well formed and the cache holds the default of every height.
    pub open spec fn wf(&self) -> bool {
        &&& store_wf(self.contents(), self.columns())
        &&& self.defaults().len() == HEIGHT + 1
        &&& forall|h: int|
            0 <= h <= HEIGHT ==> #[trigger] self.defaults()[h] == default_hash(h as nat)
                && default_hash(h as nat).len() == HASH_LEN
    }

    /// A tree over `db`, which must hold only what a tree writes (an empty store will do).
    pub fn new(db: InMemory) -> (r: MerkleTree)
        requires
            store_wf(store_contents(db), store_columns(db)),
        ensures
            r.wf(),
            r.contents() == store_contents(db),
            r.columns() == store_columns(db),
    {
        let default_hashes = gen_default_hashes(HEIGHT);
        let r = MerkleTree { db, default_hashes };
        assert forall|h: int| 0 <= h <= HEIGHT implies #[trigger] r.defaults()[h] == default_hash(
            h as nat,
        ) && default_hash(h as nat).len() == HASH_LEN by {
            assert(r.default_hashes[h]@ == default_hash(h as nat));
            assert(r.default_hashes[h].len() == HASH_LEN);
        }
        r
    }

    /// Adds the leaf `hash` at `index`. A temporary leaf counts toward pruning: once all the
    /// leaves below a node are temporary, that node alone is kept.
    pub fn add_hash(&mut self, index: u32, hash: NodeHash, temporary: bool)
        requires
            old(self).wf(),
            hash.len() == HASH_LEN,
        ensures
            final(self).wf(),
            final(self).columns() == old(self).columns(),
            final(self).defaults() == old(self).defaults(),
            final(self).contents() == crate::store::apply_ops(
                old(self).contents(),
                old(self).columns(),
                add_hash_ops(old(self).contents(), index, hash@, temporary),
            ),
    {
        let mut batch = new_transaction();
        let count: u32 = if temporary {
            1
        } else {
            0
        };
        proof {
            assert(ops_wf(pending_ops(batch)));
            assert(capacity(0) == 1) by (bit_vector);
        }
        Self::set_batched(&mut batch, 0, index, &hash, count);
        self.update_path_batched(&mut batch, 0, index, hash, count);
        proof {
            assert(pending_ops(batch) =~= add_hash_ops(self.contents(), index, hash@, temporary));
            lemma_apply_ops_wf(self.contents(), self.columns(), pending_ops(batch));
        }
        store_write(&mut self.db, batch);
    }

    /// Adds each (index, hash, temporary) entry in turn, as `add_hash` does.
    pub fn add_hashes(&mut self, hashes: &[(u32, NodeHash, bool)])
        requires
            old(self).wf(),
            forall|j: int| 0 <= j < hashes.len() ==> (#[trigger] hashes[j]).1.len() == HASH_LEN,
        ensures
            final(self).wf(),
            final(self).columns() == old(self).columns(),
            final(self).defaults() == old(self).defaults(),
            final(self).contents() == after_add_hashes(
                old(self).contents(),
                old(self).columns(),
                hashes@.map_values(|e: (u32, NodeHash, bool)| (e.0, e.1@, e.2)),
            ),
    {
        let ghost entries = hashes@.map_values(|e: (u32, NodeHash, bool)| (e.0, e.1@, e.2));
        let mut j: usize = 0;
        while j < hashes.len()
            invariant
                self.wf(),
                0 <= j <= hashes.len(),
                self.columns() == old(self).columns(),
                self.defaults() == old(self).defaults(),
                forall|k: int| 0 <= k < hashes.len() ==> (#[trigger] hashes[k]).1.len() == HASH_LEN,
                entries == hashes@.map_values(|e: (u32, NodeHash, bool)| (e.0, e.1@, e.2)),
                self.contents() == after_add_hashes(
                    old(self).contents(),
                    old(self).columns(),
                    entries.take(j as int),
                ),
            decreases hashes.len() - j,
        {
            let index = hashes[j].0;
            let hash = hashes[j].1.clone();
            let temporary = hashes[j].2;
            self.add_hash(index, hash, temporary);
            proof {
                let t = entries.take(j + 1);
                assert(t.drop_last() =~= entries.take(j as int));
                assert(t.last() == entries[j as int]);
            }
            j = j + 1;
        }
        assert(entries.take(hashes.len() as int) =~= entries);
    }

    /// Adds the permanent leaves `hashes` at `start_index..`, together with every node of
    /// the subtree they fill, in one write. The run is a power of two long and starts at a
    /// multiple of its length.
    pub fn add_subtree(&mut self, hashes: &[NodeHash], start_index: u32)
        requires
            old(self).wf(),
            1 <= hashes.len() <= 0x8000_0000,
            is_pow2(hashes.len() as u32),
            start_index % (hashes.len() as u32) == 0,
            forall|j: int| 0 <= j < hashes.len() ==> #[trigger] hashes[j].len() == HASH_LEN,
        ensures
            final(self).wf(),
            final(self).columns() == old(self).columns(),
            final(self).defaults() == old(self).defaults(),
            final(self).contents() == crate::store::apply_ops(
                old(self).contents(),
                old(self).columns(),
                add_subtree_ops(
                    old(self).contents(),
                    hashes@.map_values(|v: Vec<u8>| v@),
                    start_index,
                ),
            ),
    {
        let ghost hs = hashes@.map_values(|v: Vec<u8>| v@);
        let ghost c = self.contents();
        let size = hashes.len();
        proof {
            lemma_aligned_run_fits(start_index, size as u32);
        }
        let mut batch = new_transaction();
        assert(start_index >> 0u32 == start_index) by (bit_vector);
        assert(ops_wf(pending_ops(batch)));
        let mut child_hashes: Vec<NodeHash> = Vec::new();
        let mut shift: usize = 0;
        while shift < size
            invariant
                self.wf(),
                size == hashes.len(),
                shift <= size,
                start_index + size <= 0x1_0000_0000,
                hs == hashes@.map_values(|v: Vec<u8>| v@),
                forall|j: int| 0 <= j < hashes.len() ==> #[trigger] hashes[j].len() == HASH_LEN,
                child_hashes.len() == shift,
                child_hashes@.map_values(|v: Vec<u8>| v@) == hs.take(shift as int),
                forall|j: int| 0 <= j < shift ==> #[trigger] child_hashes[j].len() == HASH_LEN,
                ops_wf(pending_ops(batch)),
                pending_ops(batch) == level_ops(hs, 0, start_index).take(shift as int),
            decreases size - shift,
        {
            let ghost prev = child_hashes@;
            let index = start_index + shift as u32;
            Self::set_batched(&mut batch, 0, index, &hashes[shift], 0);
            child_hashes.push(hashes[shift].clone());
            proof {
                assert(pending_ops(batch) =~= level_ops(hs, 0, start_index).take(shift + 1));
                assert(child_hashes@ == prev.push(child_hashes[shift as int]));
                assert(child_hashes@.map_values(|v: Vec<u8>| v@) =~= prev.map_values(
                    |v: Vec<u8>| v@,
                ).push(child_hashes[shift as int]@));
                assert(hs.take(shift + 1) =~= hs.take(shift as int).push(hs[shift as int]));
            }
            shift = shift + 1;
        }
        proof {
            assert(hs.take(size as int) =~= hs);
            assert(level_ops(hs, 0, start_index).take(size as int) =~= level_ops(hs, 0, start_index));
            assert(0x8000_0000u64 >> 0u64 == 0x8000_0000u64) by (bit_vector);
        }
        let mut height: u32 = 0;
        let mut current_start_index = start_index;
        while child_hashes.len() > 1
            invariant
                self.wf(),
                c == self.contents(),
                height < HEIGHT,
                child_hashes.len() >= 1,
                child_hashes.len() <= (0x8000_0000u64 >> height),
                child_hashes.len() <= 0x8000_0000,
                is_pow2(child_hashes.len() as u32),
                height + log2(child_hashes.len() as nat) == log2(size as nat),
                size == hashes.len(),
                child_hashes@.map_values(|v: Vec<u8>| v@) == level(hs, height as nat),
                forall|j: int| 0 <= j < child_hashes.len() ==> #[trigger] child_hashes[j].len() == HASH_LEN,
                current_start_index == start_index >> height,
                current_start_index + child_hashes.len() <= 0x1_0000_0000,
                ops_wf(pending_ops(batch)),
                pending_ops(batch) == subtree_build_ops(hs, start_index, height as nat),
            decreases child_hashes.len(),
        {
            let ghost children = child_hashes@.map_values(|v: Vec<u8>| v@);
            let ghost before = pending_ops(batch);
            proof {
                lemma_pow2_half(child_hashes.len() as u32);
            }
            assert(height < 31 && (start_index >> height) / 2 == start_index >> (height + 1)
                && (0x8000_0000u64 >> height) / 2 == 0x8000_0000u64 >> (height + 1)) by (bit_vector)
                requires
                    height < 32u32,
                    2 <= (0x8000_0000u64 >> height),
            ;
            height = height + 1;
            current_start_index = current_start_index / 2;
            let parents_size = child_hashes.len() / 2;
            let ghost parents_spec = level(hs, height as nat);
            assert(parents_spec == pair_up(children));
            let mut parent_hashes: Vec<NodeHash> = Vec::new();
            let mut parent_index_shift: usize = 0;
            while parent_index_shift < parents_size
                invariant
                    self.wf(),
                    parents_size == child_hashes.len() / 2,
                    parent_index_shift <= parents_size,
                    height <= HEIGHT - 1,
                    children == child_hashes@.map_values(|v: Vec<u8>| v@),
                    forall|j: int| 0 <= j < child_hashes.len() ==> #[trigger] child_hashes[j].len() == HASH_LEN,
                    parents_spec == pair_up(children),
                    current_start_index + parents_size <= 0x1_0000_0000,
                    parent_hashes.len() == parent_index_shift,
                    parent_hashes@.map_values(|v: Vec<u8>| v@) == parents_spec.take(parent_index_shift as int),
                    forall|j: int| 0 <= j < parent_index_shift ==> #[trigger] parent_hashes[j].len() == HASH_LEN,
                    ops_wf(pending_ops(batch)),
                    pending_ops(batch) == before + level_ops(parents_spec, height, current_start_index).take(parent_index_shift as int),
                decreases parents_size - parent_index_shift,
            {
                let ghost prev = parent_hashes@;
                let hash_left = &child_hashes[2 * parent_index_shift];
                let hash_right = &child_hashes[2 * parent_index_shift + 1];
                let hash_parent = compress(hash_left, hash_right);
                let parent_index = current_start_index + parent_index_shift as u32;
                Self::set_batched(&mut batch, height, parent_index, &hash_parent, 0);
                parent_hashes.push(hash_parent);
                proof {
                    assert(pending_ops(batch) =~= before + level_ops(parents_spec, height, current_start_index).take(parent_index_shift + 1));
                    let j = parent_index_shift as int;
                    assert(parent_hashes@.map_values(|v: Vec<u8>| v@) =~= prev.map_values(
                        |v: Vec<u8>| v@,
                    ).push(parent_hashes[j]@));
                    assert(parents_spec[j] == compress_pair(children[2 * j], children[2 * j + 1]));
                    assert(parents_spec.take(j + 1) =~= parents_spec.take(j).push(parents_spec[j]));
                }
                parent_index_shift = parent_index_shift + 1;
            }
            proof {
                assert(parents_spec.take(parents_size as int) =~= parents_spec);
                assert(level_ops(parents_spec, height, current_start_index).take(parents_size as int)
                    =~= level_ops(parents_spec, height, current_start_index));
                assert(parent_hashes@.map_values(|v: Vec<u8>| v@) =~= parents_spec);
            }
            child_hashes = parent_hashes;
        }
        let ghost top = log2(size as nat);
        assert(log2(1) == 0);
        assert(top == height);
        let root = child_hashes[0].clone();
        assert(root@ == level(hs, top)[0]);
        self.update_path_batched(&mut batch, height, current_start_index, root, 0);
        proof {
            assert(pending_ops(batch) =~= add_subtree_ops(c, hs, start_index));
            assert(store_wf(c, self.columns()));
            lemma_apply_ops_wf(c, self.columns(), pending_ops(batch));
        }
        store_write(&mut self.db, batch);
        assert(store_wf(self.contents(), self.columns()));
    }

    /// Places `hash` at (`height`, `index`) as the root of a subtree whose leaves are all
    /// temporary, without storing anything below it.
    pub fn add_subtree_root(&mut self, height: u32, index: u32, hash: NodeHash)
        requires
            old(self).wf(),
            height < HEIGHT,
            hash.len() == HASH_LEN,
        ensures
            final(self).wf(),
            final(self).columns() == old(self).columns(),
            final(self).defaults() == old(self).defaults(),
            final(self).contents() == crate::store::apply_ops(
                old(self).contents(),
                old(self).columns(),
                add_subtree_root_ops(old(self).contents(), height, index, hash@),
            ),
    {
        let mut batch = new_transaction();
        let count: u32 = 1u32 << height;
        assert(ops_wf(pending_ops(batch)));
        Self::set_batched(&mut batch, height, index, &hash, count);
        self.update_path_batched(&mut batch, height, index, hash, count);
        proof {
            assert(pending_ops(batch) =~= add_subtree_root_ops(self.contents(), height, index, hash@));
            lemma_apply_ops_wf(self.contents(), self.columns(), pending_ops(batch));
        }
        store_write(&mut self.db, batch);
    }

    /// The value of (`height`, `index`): the stored one, else the default for the height.
    pub fn get(&self, height: u32, index: u32) -> (r: NodeHash)
        requires
            self.wf(),
            height <= HEIGHT,
        ensures
            r@ == effective_value(self.contents(), height, index),
            r.len() == HASH_LEN,
    {
        match self.get_opt(height, index) {
            Some(val) => val,
            None => {
                assert(self.defaults()[height as int] == default_hash(height as nat));
                self.default_hashes[height as usize].clone()
            },
        }
    }

    /// The value stored at (`height`, `index`), if any.
    pub fn get_opt(&self, height: u32, index: u32) -> (r: Option<NodeHash>)
        requires
            self.wf(),
            height <= HEIGHT,
        ensures
            match r {
                Some(v) => stored_value(self.contents(), height, index) == Some(v@) && v.len()
                    == HASH_LEN,
                None => stored_value(self.contents(), height, index) is None,
            },
    {
        let key = node_key(height, index);
        store_get(&self.db, VALUES, key.as_slice())
    }

    /// The proof for the leaf at `index`: `None` where no leaf is stored there.
    pub fn get_proof(&self, index: u32) -> (r: Option<MerkleProof>)
        requires
            self.wf(),
        ensures
            r is None <==> stored_value(self.contents(), 0, index) is None,
            r matches Some(p) ==> {
                &&& p.sibling.len() == HEIGHT
                &&& p.path.len() == HEIGHT
                &&& forall|h: int|
                    0 <= h < HEIGHT ==> #[trigger] p.sibling[h]@ == effective_value(
                        self.contents(),
                        h as u32,
                        (index >> (h as u32)) ^ 1,
                    )
                &&& forall|h: int|
                    0 <= h < HEIGHT ==> #[trigger] p.path[h] == ((index >> (h as u32)) % 2 == 0)
            },
    {
        let key = node_key(0, index);
        let leaf = store_get(&self.db, VALUES, key.as_slice());
        if leaf.is_none() {
            return None;
        }
        let mut sibling: Vec<NodeHash> = Vec::new();
        let mut path: Vec<bool> = Vec::new();
        let mut x: u32 = index;
        let mut h: u32 = 0;
        assert(index >> 0u32 == index) by (bit_vector);
        while h < HEIGHT
            invariant
                self.wf(),
                h <= HEIGHT,
                x == index >> h,
                sibling.len() == h,
                path.len() == h,
                forall|k: int|
                    0 <= k < h ==> #[trigger] sibling[k]@ == effective_value(
                        self.contents(),
                        k as u32,
                        (index >> (k as u32)) ^ 1,
                    ),
                forall|k: int| 0 <= k < h ==> #[trigger] path[k] == ((index >> (k as u32)) % 2 == 0),
            decreases HEIGHT - h,
        {
            path.push(x % 2 == 0);
            sibling.push(self.get(h, x ^ 1));
            assert((index >> h) / 2 == index >> (h + 1)) by (bit_vector)
                requires
                    h < 32u32,
            ;
            x = x / 2;
            h = h + 1;
        }
        Some(MerkleProof { sibling, path })
    }

    /// Every stored node, once each.
    pub fn get_all_nodes(&self) -> (r: Vec<Node>)
        requires
            self.wf(),
        ensures
            forall|j: int|
                0 <= j < r.len() ==> #[trigger] stored_value(
                    self.contents(),
                    r[j].height,
                    r[j].index,
                ) == Some(r[j].value@) && r[j].height <= HEIGHT,
            forall|h: u32, i: u32|
                #[trigger] stored_value(self.contents(), h, i) is Some ==> exists|j: int|
                    0 <= j < r.len() && r[j].height == h && r[j].index == i,
            forall|j: int, l: int|
                0 <= j < l < r.len() ==> !(r[j].height == r[l].height && r[j].index == r[l].index),
    {
        let entries = store_entries(&self.db, VALUES);
        let mut r: Vec<Node> = Vec::new();
        let mut j: usize = 0;
        while j < entries.len()
            invariant
                self.wf(),
                j <= entries.len(),
                r.len() == j,
                forall|k: int|
                    0 <= k < entries.len() ==> #[trigger] self.contents().contains_key(
                        (VALUES, entries[k].0@),
                    ) && self.contents()[(VALUES, entries[k].0@)] == entries[k].1@,
                forall|k: int, l: int|
                    0 <= k < l < entries.len() ==> entries[k].0@ != entries[l].0@,
                forall|k: int|
                    0 <= k < j ==> node_key_spec((#[trigger] r[k]).height, r[k].index)
                        == entries[k].0@,
                forall|k: int| 0 <= k < j ==> (#[trigger] r[k]).value@ == entries[k].1@,
                forall|k: int| 0 <= k < j ==> (#[trigger] r[k]).height <= HEIGHT,
            decreases entries.len() - j,
        {
            assert(self.contents().contains_key((VALUES, entries[j as int].0@)));
            let node = decode_node(&entries[j].0, &entries[j].1);
            r.push(node);
            j = j + 1;
        }
        proof {
            assert forall|h: u32, i: u32| #[trigger]
                stored_value(self.contents(), h, i) is Some implies exists|j: int|
                0 <= j < r.len() && r[j].height == h && r[j].index == i by {
                let k = node_key_spec(h, i);
                assert(self.contents().contains_key((VALUES, k)));
                let j = choose|j: int| 0 <= j < entries.len() && entries[j].0@ == k;
                lemma_node_key_round_trip(h, i);
                lemma_node_key_round_trip(r[j].height, r[j].index);
                assert(r[j].height == h && r[j].index == i);
            }
            assert forall|j: int, l: int| 0 <= j < l < r.len() implies !(r[j].height == r[l].height
                && r[j].index == r[l].index) by {
                assert(node_key_spec(r[j].height, r[j].index) == entries[j].0@);
                assert(node_key_spec(r[l].height, r[l].index) == entries[l].0@);
                assert(entries[j].0@ != entries[l].0@);
            }
        }
        r
    }

    /// Recomputes the ancestors of (`height`, `index`), which now holds `hash` and `count`,
    /// collecting the writes in `batch`; the siblings are read from the store.
    fn update_path_batched(
        &self,
        batch: &mut DBTransaction,
        height: u32,
        index: u32,
        hash: NodeHash,
        count: u32,
    )
        requires
            self.wf(),
            height < HEIGHT,
            hash.len() == HASH_LEN,
            count <= capacity(height),
            ops_wf(pending_ops(*old(batch))),
        ensures
            ops_wf(pending_ops(*final(batch))),
            pending_ops(*final(batch)) == pending_ops(*old(batch)) + path_ops(
                self.contents(),
                height,
                index,
                hash@,
                count,
            ),
    {
        let ghost c = self.contents();
        let ghost start = pending_ops(*batch);
        let ghost goal = start + path_ops(c, height, index, hash@, count);
        let mut child_index = index;
        let mut child_hash = hash;
        let mut child_count = count;
        let mut current_height = height + 1;
        while current_height < HEIGHT
            invariant
                self.wf(),
                c == self.contents(),
                height < current_height <= HEIGHT,
                child_hash.len() == HASH_LEN,
                child_count <= capacity((current_height - 1) as u32),
                ops_wf(pending_ops(*batch)),
                pending_ops(*batch) + path_ops(
                    c,
                    (current_height - 1) as u32,
                    child_index,
                    child_hash@,
                    child_count,
                ) == goal,
            decreases HEIGHT - current_height,
        {
            let ghost before = pending_ops(*batch);
            let ghost rest = path_ops(
                c,
                current_height,
                child_index / 2,
                parent_value(c, (current_height - 1) as u32, child_index, child_hash@),
                parent_count(c, (current_height - 1) as u32, child_index, child_count),
            );
            let parent_index = child_index / 2;
            let sibling_index = child_index ^ 1;
            let sibling = self.get(current_height - 1, sibling_index);
            let parent_hash = if child_index % 2 == 0 {
                compress(&child_hash, &sibling)
            } else {
                compress(&sibling, &child_hash)
            };
            let sibling_count = self.get_temporary_count(current_height - 1, sibling_index);
            proof {
                lemma_count_sum((current_height - 1) as u32, child_count, sibling_count);
            }
            let parent_count = child_count + sibling_count;
            Self::set_batched(batch, current_height, parent_index, &parent_hash, parent_count);
            if parent_count == (1u32 << current_height) {
                Self::remove_batched(batch, current_height - 1, child_index);
                Self::remove_batched(batch, current_height - 1, sibling_index);
            }
            proof {
                let removed = if parent_count == capacity(current_height) {
                    remove_ops((current_height - 1) as u32, child_index) + remove_ops(
                        (current_height - 1) as u32,
                        child_index ^ 1,
                    )
                } else {
                    seq![]
                };
                assert(pending_ops(*batch) =~= before + set_ops(
                    current_height,
                    parent_index,
                    parent_hash@,
                    parent_count,
                ) + removed);
                assert(path_ops(c, (current_height - 1) as u32, child_index, child_hash@, child_count)
                    == set_ops(current_height, parent_index, parent_hash@, parent_count) + removed
                    + rest);
                assert(pending_ops(*batch) + rest =~= goal);
            }
            child_index = parent_index;
            child_hash = parent_hash;
            child_count = parent_count;
            current_height = current_height + 1;
        }
        assert(pending_ops(*batch) =~= goal);
    }

    /// Collects in `batch` the writes of `hash` at (`height`, `index`), and of `count` where
    /// it is not zero.
    fn set_batched(batch: &mut DBTransaction, height: u32, index: u32, hash: &NodeHash, count: u32)
        requires
            ops_wf(pending_ops(*old(batch))),
            height <= HEIGHT,
            hash.len() == HASH_LEN,
            count > 0 ==> height < HEIGHT && count <= capacity(height),
        ensures
            ops_wf(pending_ops(*final(batch))),
            pending_ops(*final(batch)) == pending_ops(*old(batch)) + set_ops(
                height,
                index,
                hash@,
                count,
            ),
    {
        let key = node_key(height, index);
        proof {
            lemma_node_key_round_trip(height, index);
            lemma_be_round_trip(count);
        }
        let ghost start = pending_ops(*batch);
        transaction_put(batch, VALUES, key.as_slice(), hash.as_slice());
        if count > 0 {
            let bytes = be_bytes_of(count);
            transaction_put(batch, COUNTS, key.as_slice(), bytes.as_slice());
        }
        proof {
            let added = set_ops(height, index, hash@, count);
            assert(pending_ops(*batch) =~= start + added);
            assert(ops_wf(added));
            lemma_ops_wf_append(start, added);
        }
    }

    /// Collects in `batch` the removal of (`height`, `index`) from both columns.
    fn remove_batched(batch: &mut DBTransaction, height: u32, index: u32)
        requires
            ops_wf(pending_ops(*old(batch))),
        ensures
            ops_wf(pending_ops(*final(batch))),
            pending_ops(*final(batch)) == pending_ops(*old(batch)) + remove_ops(height, index),
    {
        let key = node_key(height, index);
        let ghost start = pending_ops(*batch);
        transaction_delete(batch, VALUES, key.as_slice());
        transaction_delete(batch, COUNTS, key.as_slice());
        proof {
            let added = remove_ops(height, index);
            assert(pending_ops(*batch) =~= start + added);
            assert(ops_wf(added));
            lemma_ops_wf_append(start, added);
        }
    }

    /// The temporary-leaf count at (`height`, `index`); zero where none is stored.
    fn get_temporary_count(&self, height: u32, index: u32) -> (r: u32)
        requires
            self.wf(),
            height <= HEIGHT,
        ensures
            r == stored_count(self.contents(), height, index),
            height < HEIGHT ==> r <= capacity(height),
    {
        match self.get_temporary_count_opt(height, index) {
            Some(val) => val,
            None => 0,
        }
    }

    /// The temporary-leaf count stored at (`height`, `index`), if any.
    fn get_temporary_count_opt(&self, height: u32, index: u32) -> (r: Option<u32>)
        requires
            self.wf(),
            height <= HEIGHT,
        ensures
            r is Some == self.contents().contains_key((COUNTS, node_key_spec(height, index))),
            r matches Some(v) ==> v == stored_count(self.contents(), height, index) && v
                <= capacity(height),
    {
        let key = node_key(height, index);
        proof {
            lemma_node_key_round_trip(height, index);
        }
        match store_get(&self.db, COUNTS, key.as_slice()) {
            Some(val) => {
                let v = read_be_u32(&val, 0);
                assert(val@.subrange(0, 4) =~= val@);
                Some(v)
            },
            None => None,
        }
    }
}

/// The node that a stored key and value describe.
fn decode_node(key: &Vec<u8>, value: &Vec<u8>) -> (r: Node)
    requires
        key.len() == 8,
    ensures
        node_key_spec(r.height, r.index) == key@,
        r.height == key_height(key@),
        r.value@ == value@,
{
    let height = read_be_u32(key, 0);
    let index = read_be_u32(key, 4);
    proof {
        lemma_key_decodes(key@);
    }
    Node { index, height, value: value.clone() }
}

/// An 8-byte key spells the node key of the height and index it decodes to.
proof fn lemma_key_decodes(k: Seq<u8>)
    requires
        k.len() == 8,
    ensures
        node_key_spec(key_height(k), key_index(k)) == k,
{
    let a = k.subrange(0, 4);
    let b = k.subrange(4, 8);
    lemma_be_bytes_of_value(a);
    lemma_be_bytes_of_value(b);
    assert(k =~= a + b);
}

proof fn lemma_be_bytes_of_value(s: Seq<u8>)
    requires
        s.len() == 4,
    ensures
        be_bytes(be_value(s)) == s,
{
    let (b0, b1, b2, b3) = (s[0], s[1], s[2], s[3]);
    let v = be_value(s);
    assert(v == ((b0 as u32) << 24u32) | ((b1 as u32) << 16u32) | ((b2 as u32) << 8u32) | (b3 as u32));
    assert((v >> 24u32) as u8 == b0 && (v >> 16u32) as u8 == b1 && (v >> 8u32) as u8 == b2 && v as u8 == b3) by (bit_vector)
        requires
            v == ((b0 as u32) << 24u32) | ((b1 as u32) << 16u32) | ((b2 as u32) << 8u32) | (b3 as u32),
    ;
    assert(be_bytes(v) =~= s);
}

} // verus!
