//! The Merkle commitment over an ordered list of byte strings.

use vstd::prelude::*;
use crate::crypto::{sha256, sha256_of};
use crate::encoding::push_bytes;

verus! {

/// The level above: adjacent digests paired left to right and the pair's
/// concatenation hashed; an odd last digest is paired with itself.
pub open spec fn parent_level(level: Seq<Seq<u8>>) -> Seq<Seq<u8>> {
    Seq::new(
        ((level.len() + 1) / 2) as nat,
        |i: int|
            sha256_of(
                level[2 * i] + if 2 * i + 1 < level.len() {
                    level[2 * i + 1]
                } else {
                    level[2 * i]
                },
            ),
    )
}

/// The digest that a non-empty level reduces to.
pub open spec fn reduce_level(level: Seq<Seq<u8>>) -> Seq<u8>
    decreases level.len(),
{
    if level.len() <= 1 {
        level[0]
    } else {
        reduce_level(parent_level(level))
    }
}

/// The Merkle root of the leaves: 32 zero bytes for none, else the leaves'
/// digests reduced level by level.
pub open spec fn merkle_root_of(leaves: Seq<Seq<u8>>) -> Seq<u8> {
    if leaves.len() == 0 {
        crate::crypto::zero_digest()
    } else {
        reduce_level(leaves.map_values(|l: Seq<u8>| sha256_of(l)))
    }
}

/// The root depends on the ordered leaves alone, and an empty list of leaves
/// gives the all-zero sentinel.
pub proof fn lemma_merkle_root_determined(a: Seq<Seq<u8>>, b: Seq<Seq<u8>>)
    requires
        a == b,
    ensures
        merkle_root_of(a) == merkle_root_of(b),
        merkle_root_of(Seq::<Seq<u8>>::empty()) == crate::crypto::zero_digest(),
{
}

/// The digests of a level as byte strings.
pub open spec fn level_view(level: Seq<crate::crypto::Hash>) -> Seq<Seq<u8>> {
    level.map_values(|h: crate::crypto::Hash| h.0@)
}

/// The digest of one leaf.
pub fn hash_leaf(data: &[u8]) -> (r: crate::crypto::Hash)
    ensures
        r.0@ == sha256_of(data@),
{
    sha256(data)
}

fn hash_pair(left: &crate::crypto::Hash, right: &crate::crypto::Hash) -> (r: crate::crypto::Hash)
    ensures
        r.0@ == sha256_of(left.0@ + right.0@),
{
    let mut bytes: Vec<u8> = Vec::new();
    push_bytes(&mut bytes, &left.0);
    push_bytes(&mut bytes, &right.0);
    assert(bytes@ =~= left.0@ + right.0@);
    sha256(bytes.as_slice())
}

fn next_level(level: &Vec<crate::crypto::Hash>) -> (r: Vec<crate::crypto::Hash>)
    ensures
        level_view(r@) == parent_level(level_view(level@)),
{
    let ghost lv = level_view(level@);
    let mut r: Vec<crate::crypto::Hash> = Vec::new();
    let mut i: usize = 0;
    while i < level.len()
        invariant
            lv == level_view(level@),
            i % 2 == 0 || i == level@.len(),
            i <= level@.len(),
            r@.len() == (i + 1) / 2,
            forall|k: int| 0 <= k < r@.len() ==> (#[trigger] r@[k]).0@ == parent_level(lv)[k],
        decreases level@.len() - i,
    {
        if i + 1 < level.len() {
            r.push(hash_pair(&level[i], &level[i + 1]));
            i = i + 2;
        } else {
            r.push(hash_pair(&level[i], &level[i]));
            i = i + 1;
        }
    }
    assert(r@.len() == parent_level(lv).len());
    assert(level_view(r@) =~= parent_level(lv));
    r
}

/// The Merkle root of the leaves, in their order.
pub fn merkle_root(leaves: &Vec<Vec<u8>>) -> (r: crate::crypto::Hash)
    ensures
        r.0@ == merkle_root_of(leaves@.map_values(|l: Vec<u8>| l@)),
{
    let ghost lv = leaves@.map_values(|l: Vec<u8>| l@);
    if leaves.len() == 0 {
        return crate::crypto::Hash::zero();
    }
    let mut level: Vec<crate::crypto::Hash> = Vec::new();
    let mut i: usize = 0;
    while i < leaves.len()
        invariant
            lv == leaves@.map_values(|l: Vec<u8>| l@),
            i <= leaves@.len(),
            level@.len() == i,
            forall|k: int| 0 <= k < i ==> (#[trigger] level@[k]).0@ == sha256_of(lv[k]),
        decreases leaves@.len() - i,
    {
        level.push(hash_leaf(leaves[i].as_slice()));
        i = i + 1;
    }
    assert(level_view(level@) =~= lv.map_values(|l: Seq<u8>| sha256_of(l)));
    while level.len() > 1
        invariant
            level@.len() >= 1,
            reduce_level(level_view(level@)) == merkle_root_of(lv),
        decreases level@.len(),
    {
        level = next_level(&level);
        assert(level_view(level@).len() == level@.len());
    }
    level[0]
}

} // verus!
