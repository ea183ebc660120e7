//! The Merkle tree: built once from an ordered list of blocks, it gives out
//! its root hash and inclusion proofs for its blocks.

use crate::builder::{build, fold_all, fold_level, leaf_level, lemma_build_leaves, root_of};
use crate::hashing::{copy_bytes, digest_len, leaf_hash, HashAlgorithm, MAX_INPUT_LEN};
use crate::inclusion::{find, locate, proof_view, Conjecture, Proof, ProofView};
use crate::laws::{lemma_find_complete, lemma_find_sound, lemma_leaf_hashes, lemma_locate_built};
use crate::shape::fold_rounds;
use crate::tree::{BinaryTree, TreeView};
use vstd::prelude::*;

verus! {

/// The blocks that `values` holds, in order.
pub open spec fn blocks_of(values: Seq<Vec<u8>>) -> Seq<Seq<u8>> {
    Seq::new(values.len(), |i: int| values[i]@)
}

/// The views of the trees of a level, in order.
pub open spec fn level_of(trees: Seq<BinaryTree>) -> Seq<TreeView> {
    Seq::new(trees.len(), |i: int| trees[i]@)
}

/// The proof that `value` is a block of the tree over `blocks`: the chain to
/// the leftmost leaf with the hash of `value`, if there is such a leaf.
pub open spec fn member_proof(
    algorithm: HashAlgorithm,
    blocks: Seq<Seq<u8>>,
    value: Seq<u8>,
) -> Option<ProofView> {
    match find(build(algorithm, blocks), leaf_hash(algorithm, value)) {
        Some(chain) => Some(
            ProofView { algorithm, root_hash: root_of(algorithm, blocks), conjecture: chain, value },
        ),
        None => None,
    }
}

/// The proof for the block at position `n` of the tree over `blocks`, if
/// there is such a position.
pub open spec fn nth_proof(algorithm: HashAlgorithm, blocks: Seq<Seq<u8>>, n: nat) -> Option<
    ProofView,
> {
    match locate(build(algorithm, blocks), n, blocks.len()) {
        Some((chain, value)) => Some(
            ProofView { algorithm, root_hash: root_of(algorithm, blocks), conjecture: chain, value },
        ),
        None => None,
    }
}

/// A Merkle tree over an ordered list of blocks: a binary tree with the blocks
/// at its leaves, in which every internal node holds the hash of its two
/// children's hashes. Its view is the list of blocks. Trees are ordered by
/// height, then by number of blocks, then by algorithm.
#[derive(Debug, PartialEq, Eq, PartialOrd, Ord, Hash)]
pub struct MerkleTree {
    /// The number of fold rounds that built the tree.
    height: usize,
    /// The number of leaves.
    count: usize,
    /// The hash algorithm of this tree.
    algorithm: HashAlgorithm,
    /// The root of the binary tree.
    root: BinaryTree,
}

impl View for MerkleTree {
    type V = Seq<Seq<u8>>;

    closed spec fn view(&self) -> Seq<Seq<u8>> {
        self.root@.leaves()
    }
}

impl Clone for MerkleTree {
    fn clone(&self) -> (copy: Self)
        ensures
            copy@ == self@,
            copy.algorithm() == self.algorithm(),
    {
        proof {
            use_type_invariant(self);
        }
        MerkleTree {
            algorithm: self.algorithm,
            root: self.root.clone(),
            height: self.height,
            count: self.count,
        }
    }
}

impl MerkleTree {
    /// The root is the tree that the builder makes of the blocks at its
    /// leaves, and the two counts are those of that tree.
    #[verifier::type_invariant]
    spec fn built(&self) -> bool {
        &&& self.root@ == build(self.algorithm, self.root@.leaves())
        &&& self.root@.well_hashed(self.algorithm)
        &&& self.count == self.root@.leaves().len()
        &&& self.height == fold_rounds(self.count as nat)
    }

    /// The hash algorithm of this tree.
    pub closed spec fn spec_algorithm(&self) -> HashAlgorithm {
        self.algorithm
    }

    /// Builds the tree over `values`. The blocks become the leaves, in their
    /// order. Then the level is folded until one node is left: its nodes are
    /// joined two by two from the left, and a node left without a partner
    /// moves up unchanged. Without blocks the tree is the empty tree.
    pub fn from_vec(algorithm: HashAlgorithm, values: Vec<Vec<u8>>) -> (tree: MerkleTree)
        requires
            forall|i: int| 0 <= i < values@.len() ==> values@[i]@.len() <= MAX_INPUT_LEN,
        ensures
            tree.algorithm() == algorithm,
            tree@ == blocks_of(values@),
            build(algorithm, tree@).well_hashed(algorithm),
    {
        let ghost all = values@;
        let ghost blocks = blocks_of(all);
        proof {
            lemma_build_leaves(algorithm, blocks);
        }
        if values.is_empty() {
            let root = BinaryTree::empty(algorithm.hash_empty());
            assert(root@ == build(algorithm, blocks));
            return MerkleTree { algorithm, root, height: 0, count: 0 };
        }
        let count = values.len();
        let mut height: usize = 0;
        let mut cur: Vec<BinaryTree> = Vec::with_capacity(count);

        for v in it: values
            invariant
                it.seq() == all,
                forall|i: int| 0 <= i < all.len() ==> all[i]@.len() <= MAX_INPUT_LEN,
                cur@.len() == it.index(),
                forall|j: int|
                    0 <= j < cur@.len() ==> (#[trigger] cur@[j])@ == TreeView::leaf(
                        algorithm,
                        all[j]@,
                    ),
                forall|j: int| 0 <= j < cur@.len() ==> (#[trigger] cur@[j])@.well_hashed(algorithm),
        {
            let leaf = BinaryTree::new_leaf(algorithm, v);
            cur.push(leaf);
        }
        assert(level_of(cur@) =~= leaf_level(algorithm, blocks));

        while cur.len() > 1
            invariant
                1 <= cur@.len(),
                height + cur@.len() <= count,
                height + fold_rounds(cur@.len()) == fold_rounds(count as nat),
                fold_all(algorithm, level_of(cur@)) == build(algorithm, blocks),
                forall|j: int| 0 <= j < cur@.len() ==> (#[trigger] cur@[j])@.well_hashed(algorithm),
            decreases cur@.len(),
        {
            let ghost trees = cur@;
            let ghost level = level_of(trees);
            let mut next: Vec<BinaryTree> = Vec::new();
            let mut waiting: Option<BinaryTree> = None;
            for node in it: cur
                invariant
                    it.seq() == trees,
                    level == level_of(trees),
                    next@.len() == it.index() / 2,
                    waiting is Some <==> it.index() % 2 == 1,
                    waiting matches Some(left) ==> left == trees[it.index() - 1],
                    forall|j: int|
                        0 <= j < next@.len() ==> (#[trigger] next@[j])@ == fold_level(
                            algorithm,
                            level,
                        )[j],
                    forall|j: int|
                        0 <= j < trees.len() ==> (#[trigger] trees[j])@.well_hashed(algorithm),
                    forall|j: int|
                        0 <= j < next@.len() ==> (#[trigger] next@[j])@.well_hashed(algorithm),
            {
                match waiting {
                    None => {
                        waiting = Some(node);
                    },
                    Some(left) => {
                        assert(left@ == level[it.index() - 1]);
                        assert(node@ == level[it.index() as int]);
                        next.push(BinaryTree::new_node(algorithm, left, node));
                        waiting = None;
                    },
                }
            }
            match waiting {
                Some(last) => {
                    assert(last@ == level[level.len() - 1]);
                    next.push(last);
                },
                None => {},
            }
            assert(level_of(next@) =~= fold_level(algorithm, level));
            height += 1;
            cur = next;
        }
        let ghost top = level_of(cur@);
        let root = cur.remove(0);
        assert(root@ == top[0]);
        MerkleTree { algorithm, root, height, count }
    }

    /// The hash algorithm of this tree.
    #[verifier::when_used_as_spec(spec_algorithm)]
    pub fn algorithm(&self) -> (algorithm: HashAlgorithm)
        ensures
            algorithm == self.spec_algorithm(),
    {
        self.algorithm
    }

    /// The hash at the root of the tree: the commitment to the blocks.
    pub fn root_hash(&self) -> (hash: &Vec<u8>)
        ensures
            hash@ == root_of(self.algorithm(), self@),
            hash@.len() == digest_len(self.algorithm()),
            build(self.algorithm(), self@).well_hashed(self.algorithm()),
    {
        proof {
            use_type_invariant(self);
        }
        self.root.hash()
    }

    /// The number of fold rounds that built the tree.
    pub fn height(&self) -> (height: usize)
        ensures
            height == fold_rounds(self@.len()),
    {
        proof {
            use_type_invariant(self);
        }
        self.height
    }

    /// The number of blocks.
    pub fn count(&self) -> (count: usize)
        ensures
            count == self@.len(),
    {
        proof {
            use_type_invariant(self);
        }
        self.count
    }

    /// Whether the tree has no blocks.
    pub fn is_empty(&self) -> (empty: bool)
        ensures
            empty == (self@.len() == 0),
    {
        self.count() == 0
    }

    /// The proof that `value` is a block of this tree. The tree is searched
    /// for a leaf with the hash of `value`, the left subtree before the right
    /// one, so that of several such leaves the leftmost is taken. Nothing is
    /// returned where no leaf carries that hash. A proof that is returned
    /// validates against the root hash of this tree.
    pub fn gen_proof(&self, value: Vec<u8>) -> (found: Option<Proof>)
        requires
            value@.len() <= MAX_INPUT_LEN,
        ensures
            proof_view(found) == member_proof(self.algorithm(), self@, value@),
            found is Some <==> exists|i: int|
                0 <= i < self@.len() && #[trigger] leaf_hash(self.algorithm(), self@[i])
                    == leaf_hash(self.algorithm(), value@),
            found matches Some(given) ==> given@.validates(root_of(self.algorithm(), self@)),
    {
        proof {
            use_type_invariant(self);
            let tree = build(self.algorithm, self@);
            let needle = leaf_hash(self.algorithm, value@);
            lemma_find_complete(tree, needle);
            lemma_find_sound(self.algorithm, tree, needle);
            lemma_leaf_hashes(self.algorithm, tree);
            if tree.leaf_hashes().contains(needle) {
                let i = choose|i: int|
                    0 <= i < tree.leaf_hashes().len() && tree.leaf_hashes()[i] == needle;
                assert(leaf_hash(self.algorithm, self@[i]) == needle);
            }
            if exists|i: int|
                0 <= i < self@.len() && #[trigger] leaf_hash(self.algorithm, self@[i]) == needle {
                let i = choose|i: int|
                    0 <= i < self@.len() && #[trigger] leaf_hash(self.algorithm, self@[i])
                        == needle;
                assert(tree.leaf_hashes()[i] == needle);
            }
        }
        let root_hash = copy_bytes(self.root.hash().as_slice());
        let needle = self.algorithm.hash_leaf(value.as_slice());
        match Conjecture::new(&self.root, needle.as_slice()) {
            Some(chain) => Some(Proof::new(self.algorithm, root_hash, chain, value)),
            None => None,
        }
    }

    /// The proof for the block at position `n`, counted from zero. Nothing is
    /// returned where the tree has no such position. A proof that is returned
    /// holds the block at `n`, leads back to `n`, and validates against the
    /// root hash of this tree.
    pub fn gen_nth_proof(&self, n: usize) -> (found: Option<Proof>)
        ensures
            proof_view(found) == nth_proof(self.algorithm(), self@, n as nat),
            found is Some <==> n < self@.len(),
            found matches Some(given) ==> {
                &&& given@.value == self@[n as int]
                &&& given@.conjecture.well_formed()
                &&& given@.index(self@.len()) == n
                &&& given@.validates(root_of(self.algorithm(), self@))
            },
    {
        proof {
            use_type_invariant(self);
            if n < self@.len() {
                lemma_locate_built(self.algorithm, self@, n as nat);
            }
        }
        let root_hash = copy_bytes(self.root.hash().as_slice());
        match Conjecture::new_by_index(&self.root, n, self.count) {
            Some((chain, value)) => Some(
                Proof::new(self.algorithm, root_hash, chain, copy_bytes(value.as_slice())),
            ),
            None => None,
        }
    }
}

} // verus!
