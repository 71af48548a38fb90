//! A binary hash tree committing to an ordered list of byte strings.
//!
//! Leaves hash their data; a parent hashes the concatenation of its two
//! children's digests. At every level a last node without a partner is paired
//! with itself, so a parent with a single child hashes that child's digest
//! twice.
use vstd::prelude::*;
use crate::crypto::{sha3_256, sha3_256_of};

verus! {

/// A node of the tree; its `data` is its digest.
#[derive(Debug)]
pub struct MerkleNode {
    pub left: Option<Box<MerkleNode>>,
    pub right: Option<Box<MerkleNode>>,
    pub data: Vec<u8>,
}

/// A tree over a list of byte strings; the root is absent for an empty list.
#[derive(Debug)]
pub struct MerkleTree {
    pub root_node: Option<MerkleNode>,
}

pub open spec fn child_digest(c: Option<Box<MerkleNode>>) -> Option<Seq<u8>> {
    match c {
        Some(n) => Some(n.data@),
        None => None,
    }
}

/// The digest of a node with the given children: a leaf hashes its data, an
/// inner node the concatenation of its children's digests, a lone child
/// standing in for both.
pub open spec fn node_digest(left: Option<Seq<u8>>, right: Option<Seq<u8>>, data: Seq<u8>) -> Seq<u8> {
    match (left, right) {
        (None, None) => sha3_256_of(data),
        (Some(l), Some(r)) => sha3_256_of(l + r),
        (Some(l), None) => sha3_256_of(l + l),
        (None, Some(r)) => sha3_256_of(r + r),
    }
}

/// The digests one level up: node `k` pairs `level[2k]` with `level[2k+1]`, or
/// with itself where the level ends.
pub open spec fn parent_level(level: Seq<Seq<u8>>) -> Seq<Seq<u8>> {
    Seq::new(
        ((level.len() + 1) / 2) as nat,
        |k: int|
            if 2 * k + 1 < level.len() {
                sha3_256_of(level[2 * k] + level[2 * k + 1])
            } else {
                sha3_256_of(level[2 * k] + level[2 * k])
            },
    )
}

/// The digest that a level reduces to by pairing until one node is left.
pub open spec fn reduce_level(level: Seq<Seq<u8>>) -> Seq<u8>
    decreases level.len(),
{
    if level.len() <= 1 {
        level[0]
    } else {
        reduce_level(parent_level(level))
    }
}

/// The leaf digests of a list of byte strings.
pub open spec fn leaf_level(data: Seq<Seq<u8>>) -> Seq<Seq<u8>> {
    data.map_values(|d: Seq<u8>| sha3_256_of(d))
}

/// The root digest over a non-empty list: the leaves are paired at least once.
pub open spec fn merkle_root(data: Seq<Seq<u8>>) -> Seq<u8> {
    reduce_level(parent_level(leaf_level(data)))
}

pub open spec fn digests(nodes: Seq<MerkleNode>) -> Seq<Seq<u8>> {
    nodes.map_values(|n: MerkleNode| n.data@)
}

pub open spec fn byte_strings(data: Seq<Vec<u8>>) -> Seq<Seq<u8>> {
    data.map_values(|d: Vec<u8>| d@)
}

impl MerkleNode {
    /// A node over the given children, or a leaf over `data` where it has none.
    pub fn new(left: Option<Box<MerkleNode>>, right: Option<Box<MerkleNode>>, data: Vec<u8>) -> (r: MerkleNode)
        ensures
            r.left == left,
            r.right == right,
            r.data@ == node_digest(child_digest(left), child_digest(right), data@),
            r.data@.len() == 32,
    {
        let digest = match (&left, &right) {
            (None, None) => sha3_256(data.as_slice()),
            (Some(l), Some(r)) => {
                let mut joined = l.data.clone();
                joined.extend_from_slice(r.data.as_slice());
                assert(joined@ =~= l.data@ + r.data@);
                sha3_256(joined.as_slice())
            },
            (Some(l), None) => {
                let mut joined = l.data.clone();
                joined.extend_from_slice(l.data.as_slice());
                assert(joined@ =~= l.data@ + l.data@);
                sha3_256(joined.as_slice())
            },
            (None, Some(r)) => {
                let mut joined = r.data.clone();
                joined.extend_from_slice(r.data.as_slice());
                assert(joined@ =~= r.data@ + r.data@);
                sha3_256(joined.as_slice())
            },
        };
        MerkleNode { left, right, data: digest }
    }
}

/// Pairs a level of nodes into the level above it.
fn pair_up(nodes: Vec<MerkleNode>) -> (r: Vec<MerkleNode>)
    requires
        nodes@.len() >= 1,
    ensures
        digests(r@) == parent_level(digests(nodes@)),
        r@.len() < nodes@.len() || nodes@.len() == 1,
        r@.len() >= 1,
        forall|k: int| 0 <= k < r@.len() ==> (#[trigger] r@[k]).data@.len() == 32,
{
    let ghost level = digests(nodes@);
    let count = nodes.len();
    let ghost n = count as nat;
    let mut rest = nodes;
    let mut parents: Vec<MerkleNode> = Vec::new();
    let mut k: usize = 0;
    while rest.len() > 1
        invariant
            n == level.len(),
            n <= usize::MAX,
            2 * k + rest@.len() == n,
            digests(rest@) == level.subrange(2 * k, n as int),
            digests(parents@) == parent_level(level).subrange(0, k as int),
            parents@.len() == k,
            forall|q: int| 0 <= q < parents@.len() ==> (#[trigger] parents@[q]).data@.len() == 32,
        decreases rest@.len(),
    {
        let ghost before = parents@;
        let ghost old_rest = rest@;
        assert(digests(old_rest)[0] == old_rest[0].data@);
        assert(digests(old_rest)[1] == old_rest[1].data@);
        assert(level.subrange(2 * k, n as int)[0] == level[2 * k]);
        assert(level.subrange(2 * k, n as int)[1] == level[2 * k + 1]);
        let left = rest.remove(0);
        let right = rest.remove(0);
        let node = MerkleNode::new(Some(Box::new(left)), Some(Box::new(right)), Vec::new());
        parents.push(node);
        assert(digests(parents@) =~= digests(before).push(node.data@));
        assert forall|j: int| 0 <= j < rest@.len() implies digests(rest@)[j] == level[2 * k + 2 + j] by {
            assert(rest@[j] == old_rest[j + 2]);
            assert(digests(old_rest)[j + 2] == old_rest[j + 2].data@);
        }
        k = k + 1;
        assert(digests(rest@) =~= level.subrange(2 * k, n as int));
        assert(digests(parents@) =~= parent_level(level).subrange(0, k as int));
    }
    if rest.len() == 1 {
        let ghost before = parents@;
        let ghost old_rest = rest@;
        assert(digests(old_rest)[0] == old_rest[0].data@);
        assert(level.subrange(2 * k, n as int)[0] == level[2 * k]);
        let left = rest.remove(0);
        let node = MerkleNode::new(Some(Box::new(left)), None, Vec::new());
        parents.push(node);
        assert(digests(parents@) =~= digests(before).push(node.data@));
        assert(digests(parents@) =~= parent_level(level).subrange(0, k + 1));
        assert(digests(parents@) =~= parent_level(level));
    } else {
        assert(digests(parents@) =~= parent_level(level));
    }
    parents
}

impl MerkleTree {
    /// The tree over `data`; its root digest is `merkle_root` of the list.
    pub fn new(data: Vec<Vec<u8>>) -> (r: MerkleTree)
        ensures
            data@.len() == 0 ==> r.root_node is None,
            data@.len() > 0 ==> (r.root_node matches Some(root) && root.data@ == merkle_root(
                byte_strings(data@),
            ) && root.data@.len() == 32),
    {
        let ghost bytes = byte_strings(data@);
        let mut nodes: Vec<MerkleNode> = Vec::new();
        let mut i: usize = 0;
        while i < data.len()
            invariant
                i <= data@.len(),
                bytes == byte_strings(data@),
                digests(nodes@) == leaf_level(bytes).subrange(0, i as int),
            decreases data@.len() - i,
        {
            let ghost before = nodes@;
            let node = MerkleNode::new(None, None, data[i].clone());
            nodes.push(node);
            assert(digests(nodes@) =~= digests(before).push(node.data@));
            i = i + 1;
            assert(digests(nodes@) =~= leaf_level(bytes).subrange(0, i as int));
        }
        if nodes.len() == 0 {
            return MerkleTree { root_node: None };
        }
        assert(digests(nodes@) =~= leaf_level(bytes));
        let mut level = pair_up(nodes);
        while level.len() > 1
            invariant
                level@.len() >= 1,
                reduce_level(digests(level@)) == merkle_root(bytes),
                forall|q: int| 0 <= q < level@.len() ==> (#[trigger] level@[q]).data@.len() == 32,
            decreases level@.len(),
        {
            level = pair_up(level);
        }
        let root = level.remove(0);
        MerkleTree { root_node: Some(root) }
    }
}

} // verus!
