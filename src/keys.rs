//! Big-endian encodings of heights, indices and counts, and the 8-byte node key.
use vstd::prelude::*;

verus! {

/// The four big-endian bytes of `x`.
pub open spec fn be_bytes(x: u32) -> Seq<u8> {
    seq![(x >> 24u32) as u8, (x >> 16u32) as u8, (x >> 8u32) as u8, x as u8]
}

/// The number that four big-endian bytes spell.
pub open spec fn be_value(s: Seq<u8>) -> u32 {
    ((s[0] as u32) << 24u32) | ((s[1] as u32) << 16u32) | ((s[2] as u32) << 8u32) | (s[3] as u32)
}

/// The storage key of the node at (`height`, `index`): height then index, big-endian.
pub open spec fn node_key_spec(height: u32, index: u32) -> Seq<u8> {
    be_bytes(height) + be_bytes(index)
}

/// The height that a node key spells.
pub open spec fn key_height(k: Seq<u8>) -> u32 {
    be_value(k.subrange(0, 4))
}

/// The index that a node key spells.
pub open spec fn key_index(k: Seq<u8>) -> u32 {
    be_value(k.subrange(4, 8))
}

pub proof fn lemma_be_round_trip(x: u32)
    ensures
        be_value(be_bytes(x)) == x,
{
    let b0 = (x >> 24u32) as u8;
    let b1 = (x >> 16u32) as u8;
    let b2 = (x >> 8u32) as u8;
    let b3 = x as u8;
    assert((((b0 as u32) << 24u32) | ((b1 as u32) << 16u32) | ((b2 as u32) << 8u32) | (b3 as u32))
        == x) by (bit_vector)
        requires
            b0 == (x >> 24u32) as u8,
            b1 == (x >> 16u32) as u8,
            b2 == (x >> 8u32) as u8,
            b3 == x as u8,
    ;
}

/// A node key gives back its height and index.
pub proof fn lemma_node_key_round_trip(height: u32, index: u32)
    ensures
        node_key_spec(height, index).len() == 8,
        key_height(node_key_spec(height, index)) == height,
        key_index(node_key_spec(height, index)) == index,
{
    let k = node_key_spec(height, index);
    lemma_be_round_trip(height);
    lemma_be_round_trip(index);
    assert(k.subrange(0, 4) =~= be_bytes(height));
    assert(k.subrange(4, 8) =~= be_bytes(index));
}

/// Distinct nodes have distinct keys.
pub proof fn lemma_node_key_injective(h1: u32, i1: u32, h2: u32, i2: u32)
    ensures
        (node_key_spec(h1, i1) == node_key_spec(h2, i2)) == (h1 == h2 && i1 == i2),
{
    lemma_node_key_round_trip(h1, i1);
    lemma_node_key_round_trip(h2, i2);
}

/// Writes `x` as four big-endian bytes.
pub fn be_bytes_of(x: u32) -> (r: Vec<u8>)
    ensures
        r@ == be_bytes(x),
{
    let mut r: Vec<u8> = Vec::with_capacity(4);
    r.push((x >> 24u32) as u8);
    r.push((x >> 16u32) as u8);
    r.push((x >> 8u32) as u8);
    r.push(x as u8);
    assert(r@ =~= be_bytes(x));
    r
}

/// Reads the big-endian number at `b[at..at + 4]`.
pub fn read_be_u32(b: &Vec<u8>, at: usize) -> (r: u32)
    requires
        at + 4 <= b.len(),
    ensures
        r == be_value(b@.subrange(at as int, at + 4)),
{
    let s = Ghost(b@.subrange(at as int, at + 4));
    assert(s@[0] == b[at as int] && s@[1] == b[at + 1] && s@[2] == b[at + 2] && s@[3] == b[at + 3]);
    ((b[at] as u32) << 24u32) | ((b[at + 1] as u32) << 16u32) | ((b[at + 2] as u32) << 8u32) | (b[at
        + 3] as u32)
}

/// The 8-byte storage key of the node at (`height`, `index`).
pub fn node_key(height: u32, index: u32) -> (r: Vec<u8>)
    ensures
        r@ == node_key_spec(height, index),
{
    let mut r = be_bytes_of(height);
    let mut i = be_bytes_of(index);
    r.append(&mut i);
    r
}

} // verus!
