//! Field elements as their 32-byte little-endian encoding, and the compression hash.
use libzeropool::fawkes_crypto::engines::bn256::Fr;
use libzeropool::fawkes_crypto::ff_uint::{Num, NumRepr, Uint};
use libzeropool::fawkes_crypto::native::poseidon::poseidon;
use libzeropool::native::params::PoolParams;
use vstd::prelude::*;

verus! {

/// A field element of the tree, as its 32 little-endian bytes.
pub type NodeHash = Vec<u8>;

/// The width in bytes of an encoded field element.
pub const HASH_LEN: usize = 32;

/// What Poseidon, under the pool's compression parameters, makes of encoded field elements.
pub uninterp spec fn poseidon_of(inputs: Seq<Seq<u8>>) -> Seq<u8>;

/// The hash of a parent node over its left and right children.
pub open spec fn compress_pair(left: Seq<u8>, right: Seq<u8>) -> Seq<u8> {
    poseidon_of(seq![left, right])
}

/// The encoding of the field's zero.
pub open spec fn zero_hash() -> Seq<u8> {
    Seq::new(32, |_j: int| 0u8)
}

/// The value of an all-absent subtree of the given height.
pub open spec fn default_hash(height: nat) -> Seq<u8>
    decreases height,
{
    if height == 0 {
        poseidon_of(seq![zero_hash()])
    } else {
        compress_pair(default_hash((height - 1) as nat), default_hash((height - 1) as nat))
    }
}

/// Relies on fawkes_crypto's `poseidon` under libzeropool's compression parameters, which
/// take one or two inputs. Each input is read as a little-endian number reduced into the
/// field; the result is its field element's 32 little-endian bytes.
#[verifier::external_body]
pub(crate) fn poseidon_hash(inputs: &Vec<NodeHash>) -> (r: NodeHash)
    requires
        1 <= inputs.len() <= 2,
        forall|j: int| 0 <= j < inputs.len() ==> #[trigger] inputs[j].len() == HASH_LEN,
    ensures
        r@ == poseidon_of(inputs@.map_values(|v: Vec<u8>| v@)),
        r.len() == HASH_LEN,
{
    let nums: Vec<Num<Fr>> = inputs.iter().map(|b| {
        Num::from_uint_reduced(NumRepr(Uint::from_little_endian(b)))
    }).collect();
    poseidon(&nums, libzeropool::POOL_PARAMS.compress()).to_uint().0.to_little_endian()
}

/// The hash of a parent node over `left` and `right`.
pub fn compress(left: &NodeHash, right: &NodeHash) -> (r: NodeHash)
    requires
        left.len() == HASH_LEN,
        right.len() == HASH_LEN,
    ensures
        r@ == compress_pair(left@, right@),
        r.len() == HASH_LEN,
{
    let pair = vec![left.clone(), right.clone()];
    assert(pair@.map_values(|v: Vec<u8>| v@) =~= seq![left@, right@]);
    poseidon_hash(&pair)
}

/// The values of all-absent subtrees of heights `0..=top`.
pub fn gen_default_hashes(top: u32) -> (r: Vec<NodeHash>)
    ensures
        r.len() == top + 1,
        forall|h: int| 0 <= h <= top ==> #[trigger] r[h]@ == default_hash(h as nat),
        forall|h: int| 0 <= h <= top ==> #[trigger] r[h].len() == HASH_LEN,
{
    let mut zero: NodeHash = Vec::with_capacity(HASH_LEN);
    let mut j: usize = 0;
    while j < HASH_LEN
        invariant
            j <= HASH_LEN,
            zero@ =~= Seq::new(j as nat, |_j: int| 0u8),
        decreases HASH_LEN - j,
    {
        zero.push(0u8);
        j = j + 1;
    }
    let single = vec![zero];
    assert(single@.map_values(|v: Vec<u8>| v@) =~= seq![zero_hash()]);
    let first = poseidon_hash(&single);
    let mut r: Vec<NodeHash> = Vec::new();
    r.push(first);
    let mut h: u32 = 0;
    while h < top
        invariant
            h <= top,
            r.len() == h + 1,
            forall|k: int| 0 <= k <= h ==> #[trigger] r[k]@ == default_hash(k as nat),
            forall|k: int| 0 <= k <= h ==> #[trigger] r[k].len() == HASH_LEN,
        decreases top - h,
    {
        let next = compress(&r[h as usize], &r[h as usize]);
        r.push(next);
        h = h + 1;
    }
    r
}

} // verus!
