//! The binary tree under a Merkle tree: every node carries a hash, leaves
//! carry a block, and internal nodes own their two children.

use crate::hashing::{
    combinable, copy_bytes, digest_len, empty_hash, leaf_hash, node_hash, HashAlgorithm, MAX_INPUT_LEN,
};
use vstd::prelude::*;

verus! {

/// What a `BinaryTree` holds, as mathematical values.
pub enum TreeView {
    Empty { hash: Seq<u8> },
    Leaf { hash: Seq<u8>, value: Seq<u8> },
    Node { hash: Seq<u8>, left: Box<TreeView>, right: Box<TreeView> },
}

impl TreeView {
    /// The tree without leaves, as `algorithm` hashes it.
    pub open spec fn empty(algorithm: HashAlgorithm) -> TreeView {
        TreeView::Empty { hash: empty_hash(algorithm) }
    }

    /// The leaf that holds `value`, as `algorithm` hashes it.
    pub open spec fn leaf(algorithm: HashAlgorithm, value: Seq<u8>) -> TreeView {
        TreeView::Leaf { hash: leaf_hash(algorithm, value), value }
    }

    /// The internal node over `left` and `right`, as `algorithm` hashes it.
    pub open spec fn join(algorithm: HashAlgorithm, left: TreeView, right: TreeView) -> TreeView {
        TreeView::Node {
            hash: node_hash(algorithm, left.hash(), right.hash()),
            left: Box::new(left),
            right: Box::new(right),
        }
    }

    /// The hash that the root of this tree carries.
    pub open spec fn hash(self) -> Seq<u8> {
        match self {
            TreeView::Empty { hash } => hash,
            TreeView::Leaf { hash, .. } => hash,
            TreeView::Node { hash, .. } => hash,
        }
    }

    /// The number of nodes.
    pub open spec fn size(self) -> nat
        decreases self,
    {
        match self {
            TreeView::Node { left, right, .. } => 1 + left.size() + right.size(),
            _ => 1,
        }
    }

    /// The blocks at the leaves, from left to right.
    pub open spec fn leaves(self) -> Seq<Seq<u8>>
        decreases self,
    {
        match self {
            TreeView::Empty { .. } => Seq::empty(),
            TreeView::Leaf { value, .. } => seq![value],
            TreeView::Node { left, right, .. } => left.leaves() + right.leaves(),
        }
    }

    /// The hashes of the leaves, from left to right.
    pub open spec fn leaf_hashes(self) -> Seq<Seq<u8>>
        decreases self,
    {
        match self {
            TreeView::Empty { .. } => Seq::empty(),
            TreeView::Leaf { hash, .. } => seq![hash],
            TreeView::Node { left, right, .. } => left.leaf_hashes() + right.leaf_hashes(),
        }
    }

    /// Every node carries the hash that `algorithm` gives to what is below
    /// it, and that hash has the algorithm's digest length.
    pub open spec fn well_hashed(self, algorithm: HashAlgorithm) -> bool
        decreases self,
    {
        match self {
            TreeView::Empty { hash } => {
                &&& hash == empty_hash(algorithm)
                &&& hash.len() == digest_len(algorithm)
            },
            TreeView::Leaf { hash, value } => {
                &&& hash == leaf_hash(algorithm, value)
                &&& hash.len() == digest_len(algorithm)
            },
            TreeView::Node { hash, left, right } => {
                &&& hash == node_hash(algorithm, left.hash(), right.hash())
                &&& hash.len() == digest_len(algorithm)
                &&& left.well_hashed(algorithm)
                &&& right.well_hashed(algorithm)
            },
        }
    }
}

/// A binary tree whose nodes carry hashes. Nothing ties the hashes of a value
/// of this type to its contents: a `MerkleTree` holds one that it has built.
#[derive(Debug, PartialEq, Eq, PartialOrd, Ord, Hash)]
pub enum BinaryTree {
    Empty { hash: Vec<u8> },
    Leaf { hash: Vec<u8>, value: Vec<u8> },
    Node { hash: Vec<u8>, left: Box<BinaryTree>, right: Box<BinaryTree> },
}

impl View for BinaryTree {
    type V = TreeView;

    open spec fn view(&self) -> TreeView {
        self.model()
    }
}

impl Clone for BinaryTree {
    fn clone(&self) -> (copy: Self)
        ensures
            copy@ == self@,
        decreases self,
    {
        match self {
            BinaryTree::Empty { hash } => BinaryTree::Empty { hash: copy_bytes(hash.as_slice()) },
            BinaryTree::Leaf { hash, value } => BinaryTree::Leaf {
                hash: copy_bytes(hash.as_slice()),
                value: copy_bytes(value.as_slice()),
            },
            BinaryTree::Node { hash, left, right } => BinaryTree::Node {
                hash: copy_bytes(hash.as_slice()),
                left: Box::new((&**left).clone()),
                right: Box::new((&**right).clone()),
            },
        }
    }
}

impl BinaryTree {
    /// What this tree holds, as mathematical values: its view.
    pub open spec fn model(&self) -> TreeView
        decreases self,
    {
        match self {
            BinaryTree::Empty { hash } => TreeView::Empty { hash: hash@ },
            BinaryTree::Leaf { hash, value } => TreeView::Leaf { hash: hash@, value: value@ },
            BinaryTree::Node { hash, left, right } => TreeView::Node {
                hash: hash@,
                left: Box::new(left.model()),
                right: Box::new(right.model()),
            },
        }
    }

    /// A tree without leaves that carries `hash`.
    pub fn empty(hash: Vec<u8>) -> (tree: Self)
        ensures
            tree@ == (TreeView::Empty { hash: hash@ }),
    {
        BinaryTree::Empty { hash }
    }

    /// A leaf that holds `value` and carries `hash`.
    pub fn new(hash: Vec<u8>, value: Vec<u8>) -> (tree: Self)
        ensures
            tree@ == (TreeView::Leaf { hash: hash@, value: value@ }),
    {
        BinaryTree::Leaf { hash, value }
    }

    /// The leaf that holds `value`, with the hash that `algorithm` gives it.
    pub fn new_leaf(algorithm: HashAlgorithm, value: Vec<u8>) -> (tree: Self)
        requires
            value@.len() <= MAX_INPUT_LEN,
        ensures
            tree@ == TreeView::leaf(algorithm, value@),
            tree@.well_hashed(algorithm),
    {
        let hash = algorithm.hash_leaf(value.as_slice());
        BinaryTree::new(hash, value)
    }

    /// The internal node over `left` and `right`, with the hash that
    /// `algorithm` gives to their two hashes.
    pub fn new_node(algorithm: HashAlgorithm, left: BinaryTree, right: BinaryTree) -> (tree: Self)
        requires
            combinable(left@.hash(), right@.hash()),
        ensures
            tree@ == TreeView::join(algorithm, left@, right@),
            tree@.hash().len() == digest_len(algorithm),
    {
        let hash = algorithm.hash_nodes(left.hash().as_slice(), right.hash().as_slice());
        BinaryTree::Node { hash, left: Box::new(left), right: Box::new(right) }
    }

    /// The hash that the root of this tree carries.
    pub fn hash(&self) -> (hash: &Vec<u8>)
        ensures
            hash@ == self@.hash(),
    {
        match self {
            BinaryTree::Empty { hash } => hash,
            BinaryTree::Leaf { hash, .. } => hash,
            BinaryTree::Node { hash, .. } => hash,
        }
    }
}

} // verus!
