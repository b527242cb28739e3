use kvdb_memorydb::create;
use libzeropool::fawkes_crypto::borsh::{BorshDeserialize, BorshSerialize};
use libzeropool::fawkes_crypto::engines::bn256::Fr;
use libzeropool::fawkes_crypto::ff_uint::Num;
use libzeropool::fawkes_crypto::native::poseidon::poseidon;
use libzeropool::native::params::PoolParams;
use libzeropool::POOL_PARAMS;
use libzeropool_wasm::hash::{compress, gen_default_hashes, NodeHash};
use libzeropool_wasm::merkle::{MerkleTree, Node};
use libzeropool_wasm::model::HEIGHT;

/// A field element's encoding, different for each seed and below the field's modulus.
fn leaf(seed: u64) -> NodeHash {
    let mut bytes = vec![0u8; 32];
    let x = seed.wrapping_mul(0x9e37_79b9_7f4a_7c15) ^ 0x5555;
    bytes[..8].copy_from_slice(&x.to_le_bytes());
    bytes[8..16].copy_from_slice(&(seed + 1).to_le_bytes());
    bytes[20] = 0xab;
    bytes
}

fn poseidon_of(inputs: &[NodeHash]) -> NodeHash {
    let nums: Vec<Num<Fr>> = inputs.iter().map(|b| Num::try_from_slice(b).unwrap()).collect();
    poseidon(&nums, POOL_PARAMS.compress()).try_to_vec().unwrap()
}

fn new_tree() -> MerkleTree {
    MerkleTree::new(create(2))
}

fn same_nodes(a: &[Node], b: &[Node]) -> bool {
    a.len() == b.len()
        && a.iter().all(|x| {
            b.iter().any(|y| x.height == y.height && x.index == y.index && x.value == y.value)
        })
}

#[test]
fn test_add_hashes_first_3() {
    let mut tree = new_tree();
    let hashes: Vec<(u32, NodeHash, bool)> = (0..3u32).map(|n| (n, leaf(n as u64), false)).collect();
    tree.add_hashes(&hashes);

    let nodes = tree.get_all_nodes();
    assert_eq!(nodes.len(), HEIGHT as usize + 3);

    for h in 0..HEIGHT {
        assert!(tree.get_opt(h, 0).is_some());
    }

    for (i, tuple) in hashes.iter().enumerate() {
        assert_eq!(tree.get(0, tuple.0), hashes[i].1);
    }
}

#[test]
fn test_add_hashes_last_3() {
    let mut tree = new_tree();
    let hashes: Vec<(u32, NodeHash, bool)> =
        (u32::MAX - 2..=u32::MAX).map(|n| (n, leaf(n as u64), false)).collect();
    tree.add_hashes(&hashes);

    let nodes = tree.get_all_nodes();
    assert_eq!(nodes.len(), HEIGHT as usize + 3);

    for h in 0..HEIGHT {
        let index = u32::MAX / 2u32.pow(h);
        assert!(tree.get_opt(h, index).is_some());
    }

    for (i, tuple) in hashes.iter().enumerate() {
        assert_eq!(tree.get(0, tuple.0), hashes[i].1);
    }
}

#[test]
fn test_unnecessary_temporary_nodes_are_removed() {
    let mut tree = new_tree();
    let mut hashes: Vec<(u32, NodeHash, bool)> =
        (0..6u32).map(|n| (n, leaf(n as u64), false)).collect();

    // these two must remain
    hashes[1].2 = true;
    hashes[3].2 = true;

    // these two must be removed
    hashes[4].2 = true;
    hashes[5].2 = true;

    tree.add_hashes(&hashes);

    let nodes = tree.get_all_nodes();
    assert_eq!(nodes.len(), HEIGHT as usize + 6);
    assert_eq!(tree.get_opt(0, 4), None);
    assert_eq!(tree.get_opt(0, 5), None);
}

#[test]
fn test_get_proof() {
    let mut tree = new_tree();
    let proof = tree.get_proof(123);

    assert!(proof.is_none());

    tree.add_hash(123, leaf(7), false);
    let proof = tree.get_proof(123).unwrap();

    assert_eq!(proof.sibling.len(), HEIGHT as usize);
    assert_eq!(proof.path.len(), HEIGHT as usize);
}

#[test]
fn test_temporary_nodes_are_used_to_calculate_hashes_first() {
    let mut tree = new_tree();

    let hash0 = leaf(100);
    let hash1 = leaf(101);

    tree.add_hash(0, hash0.clone(), true);
    tree.add_hash(1, hash1.clone(), false);

    let parent_hash = tree.get(1, 0);
    let expected_parent_hash = poseidon_of(&[hash0, hash1]);

    assert_eq!(parent_hash, expected_parent_hash);
}

fn check_add_subtree(subtree_size: usize, start_index: usize) {
    let mut tree_add_hashes = new_tree();
    let mut tree_add_subtree = new_tree();

    let hash_values: Vec<NodeHash> = (0..subtree_size).map(|n| leaf(1000 + n as u64)).collect();
    let hashes: Vec<(u32, NodeHash, bool)> = (0..subtree_size)
        .map(|n| ((start_index + n) as u32, hash_values[n].clone(), false))
        .collect();

    tree_add_hashes.add_hashes(&hashes);
    tree_add_subtree.add_subtree(&hash_values, start_index as u32);

    let nodes_add_hashes = tree_add_hashes.get_all_nodes();
    let nodes_add_subtree = tree_add_subtree.get_all_nodes();
    assert!(same_nodes(&nodes_add_hashes, &nodes_add_subtree));
}

#[test]
fn test_add_subtree_1_0() {
    check_add_subtree(1, 0);
}

#[test]
fn test_add_subtree_2_0() {
    check_add_subtree(2, 0);
}

#[test]
fn test_add_subtree_16_0() {
    check_add_subtree(16, 0);
}

#[test]
fn test_add_subtree_1_7() {
    check_add_subtree(1, 7);
}

#[test]
fn test_add_subtree_2_6() {
    check_add_subtree(2, 6);
}

#[test]
fn test_add_subtree_16_32() {
    check_add_subtree(16, 32);
}

#[test]
fn test_add_subtree_1_height_minus_1() {
    check_add_subtree(1, HEIGHT as usize - 1);
}

#[test]
fn test_add_subtree_2_height_minus_2() {
    check_add_subtree(2, HEIGHT as usize - 2);
}

#[test]
fn test_add_subtree_16_height_minus_16() {
    check_add_subtree(16, HEIGHT as usize - 16);
}

#[test]
fn test_add_subtree_at_top_of_index_space() {
    check_add_subtree(4, u32::MAX as usize - 3);
}

fn check_all_temporary_nodes_in_subtree_are_removed(subtree_height: u32, full_height: u32) {
    let subtree_size = 1u32 << subtree_height;
    let subtrees_count = (1u32 << full_height) / subtree_size;
    let start_index = 1u32 << 12;
    let mut subtree_indexes: Vec<u32> = (0..subtrees_count).map(|i| start_index + i).collect();
    // a fixed scramble of the insertion order
    let n = subtree_indexes.len();
    for i in 0..n {
        subtree_indexes.swap(i, (i * 7 + 3) % n);
    }

    let mut tree = new_tree();
    for (k, subtree_index) in subtree_indexes.into_iter().enumerate() {
        tree.add_subtree_root(subtree_height, subtree_index, leaf(5000 + k as u64));
    }

    let tree_nodes = tree.get_all_nodes();
    assert_eq!(tree_nodes.len(), (HEIGHT - full_height) as usize);
}

#[test]
fn test_all_temporary_nodes_in_subtree_are_removed_0_5() {
    check_all_temporary_nodes_in_subtree_are_removed(0, 5);
}

#[test]
fn test_all_temporary_nodes_in_subtree_are_removed_1_5() {
    check_all_temporary_nodes_in_subtree_are_removed(1, 5);
}

#[test]
fn test_all_temporary_nodes_in_subtree_are_removed_2_5() {
    check_all_temporary_nodes_in_subtree_are_removed(2, 5);
}

#[test]
fn test_all_temporary_nodes_in_subtree_are_removed_4_5() {
    check_all_temporary_nodes_in_subtree_are_removed(4, 5);
}

#[test]
fn test_all_temporary_nodes_in_subtree_are_removed_5_5() {
    check_all_temporary_nodes_in_subtree_are_removed(5, 5);
}

#[test]
fn test_all_temporary_nodes_in_subtree_are_removed_5_8() {
    check_all_temporary_nodes_in_subtree_are_removed(5, 8);
}

#[test]
fn test_all_temporary_nodes_in_subtree_are_removed_10_15() {
    check_all_temporary_nodes_in_subtree_are_removed(10, 15);
}

#[test]
fn test_all_temporary_nodes_in_subtree_are_removed_12_15() {
    check_all_temporary_nodes_in_subtree_are_removed(12, 15);
}

#[test]
fn empty_tree_reads_defaults() {
    let tree = new_tree();
    let defaults = gen_default_hashes(HEIGHT);
    for h in 0..=HEIGHT {
        assert_eq!(tree.get(h, 0), defaults[h as usize]);
        assert_eq!(tree.get(h, 12345 >> h.min(31)), defaults[h as usize]);
        assert_eq!(tree.get_opt(h, 0), None);
    }
    assert!(tree.get_all_nodes().is_empty());
}

#[test]
fn default_hashes_follow_poseidon() {
    let defaults = gen_default_hashes(3);
    assert_eq!(defaults.len(), 4);
    assert_eq!(defaults[0], poseidon_of(&[vec![0u8; 32]]));
    for h in 1..4 {
        let prev = defaults[h - 1].clone();
        assert_eq!(defaults[h], poseidon_of(&[prev.clone(), prev]));
    }
}

#[test]
fn compress_matches_poseidon_and_changes_its_input() {
    let a = leaf(1);
    let b = leaf(2);
    let r = compress(&a, &b);
    assert_eq!(r, poseidon_of(&[a.clone(), b.clone()]));
    assert_ne!(r, a);
    assert_ne!(r, b);
    assert_ne!(compress(&a, &b), compress(&b, &a));
}

#[test]
fn permanent_leaves_read_back_after_mixed_inserts() {
    let mut tree = new_tree();
    let entries: Vec<(u32, NodeHash, bool)> = vec![
        (10, leaf(10), false),
        (11, leaf(11), true),
        (3, leaf(3), true),
        (2, leaf(2), false),
        (u32::MAX, leaf(99), false),
    ];
    tree.add_hashes(&entries);
    for e in &entries {
        assert_eq!(tree.get(0, e.0), e.1);
    }
}

#[test]
fn temporary_pair_is_pruned_and_partial_pair_kept() {
    let mut tree = new_tree();
    tree.add_hash(8, leaf(8), true);
    assert_eq!(tree.get_opt(0, 8), Some(leaf(8)));
    tree.add_hash(9, leaf(9), true);
    assert_eq!(tree.get_opt(0, 8), None);
    assert_eq!(tree.get_opt(0, 9), None);
    assert!(tree.get_opt(1, 4).is_some());

    tree.add_hash(6, leaf(6), true);
    tree.add_hash(7, leaf(7), false);
    assert_eq!(tree.get_opt(0, 6), Some(leaf(6)));
    assert_eq!(tree.get_opt(0, 7), Some(leaf(7)));
}

#[test]
fn pruning_near_the_top_of_the_index_space() {
    let mut tree = new_tree();
    tree.add_hash(u32::MAX - 1, leaf(1), true);
    tree.add_hash(u32::MAX, leaf(2), true);
    assert_eq!(tree.get_opt(0, u32::MAX - 1), None);
    assert_eq!(tree.get_opt(0, u32::MAX), None);
    assert_eq!(tree.get(1, u32::MAX / 2), poseidon_of(&[leaf(1), leaf(2)]));
}

#[test]
fn proof_folds_to_the_stored_ancestors() {
    let mut tree = new_tree();
    tree.add_hash(5, leaf(5), false);
    tree.add_hash(6, leaf(6), false);
    tree.add_hash(1000, leaf(1000), true);
    let index = 5u32;
    let proof = tree.get_proof(index).unwrap();
    let mut acc = tree.get(0, index);
    for h in 0..HEIGHT - 1 {
        assert_eq!(proof.path[h as usize], (index >> h) % 2 == 0);
        acc = if proof.path[h as usize] {
            poseidon_of(&[acc, proof.sibling[h as usize].clone()])
        } else {
            poseidon_of(&[proof.sibling[h as usize].clone(), acc])
        };
        assert_eq!(acc, tree.get(h + 1, index >> (h + 1)));
    }
}

#[test]
fn subtree_root_counts_as_temporary_leaves() {
    let mut tree = new_tree();
    tree.add_subtree_root(2, 0, leaf(1));
    assert_eq!(tree.get_opt(2, 0), Some(leaf(1)));
    tree.add_subtree_root(2, 1, leaf(2));
    assert_eq!(tree.get_opt(2, 0), None);
    assert_eq!(tree.get_opt(2, 1), None);
    assert_eq!(tree.get(3, 0), poseidon_of(&[leaf(1), leaf(2)]));
}
