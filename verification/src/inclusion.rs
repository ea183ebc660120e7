//! Inclusion proofs: how one is taken from a tree, by a leaf's hash or by a
//! leaf's position, and how one is checked against a root hash.

use crate::hashing::{bytes_eq, combinable, copy_bytes, node_hash, HashAlgorithm, MAX_INPUT_LEN};
use crate::shape::{left_count, lemma_split_point_bounds, split_point};
use crate::tree::{BinaryTree, TreeView};
use vstd::prelude::*;

verus! {

/// Tags a hash with the branch that it was found in.
#[derive(Debug, PartialEq, Eq, PartialOrd, Ord, Hash)]
pub enum Side<T> {
    /// The hash belongs to the left branch.
    Left(T),
    /// The hash belongs to the right branch.
    Right(T),
}

impl<T: Clone> Clone for Side<T> {
    fn clone(&self) -> (copy: Self)
        ensures
            match (*self, copy) {
                (Side::Left(from), Side::Left(to)) => cloned(from, to),
                (Side::Right(from), Side::Right(to)) => cloned(from, to),
                _ => false,
            },
    {
        match self {
            Side::Left(value) => Side::Left(value.clone()),
            Side::Right(value) => Side::Right(value.clone()),
        }
    }
}

/// What a `Conjecture` holds, as mathematical values.
pub struct ChainView {
    pub node_hash: Seq<u8>,
    pub sibling_hash: Option<Side<Seq<u8>>>,
    pub sub_conjecture: Option<Box<ChainView>>,
}

impl ChainView {
    /// The last step of a chain: the step of the leaf itself.
    pub open spec fn terminal(hash: Seq<u8>) -> ChainView {
        ChainView { node_hash: hash, sibling_hash: None, sub_conjecture: None }
    }

    /// The step of an internal node with the hash `hash`: `sibling` is the
    /// hash of the child that the chain does not go through, tagged with the
    /// side that child is on, and `below` is the chain through the other child.
    pub open spec fn step(
        hash: Seq<u8>,
        sibling: Side<Seq<u8>>,
        below: ChainView,
    ) -> ChainView {
        ChainView {
            node_hash: hash,
            sibling_hash: Some(sibling),
            sub_conjecture: Some(Box::new(below)),
        }
    }

    /// Every step has both a sibling and a step below it, or neither.
    pub open spec fn well_formed(self) -> bool
        decreases self,
    {
        match self.sub_conjecture {
            Some(below) => self.sibling_hash is Some && below.well_formed(),
            None => self.sibling_hash is None,
        }
    }

    /// The chain is well formed, and the hash of every step with a sibling is
    /// the hash of the two hashes below it, the sibling's on the side that its
    /// tag names. Two hashes that are too long to be hashed together make no
    /// valid step.
    pub open spec fn valid(self, algorithm: HashAlgorithm) -> bool
        decreases self,
    {
        match self.sub_conjecture {
            None => self.sibling_hash is None,
            Some(below) => match self.sibling_hash {
                None => false,
                Some(Side::Left(hash)) => {
                    &&& combinable(hash, below.node_hash)
                    &&& node_hash(algorithm, hash, below.node_hash) == self.node_hash
                    &&& below.valid(algorithm)
                },
                Some(Side::Right(hash)) => {
                    &&& combinable(below.node_hash, hash)
                    &&& node_hash(algorithm, below.node_hash, hash) == self.node_hash
                    &&& below.valid(algorithm)
                },
            },
        }
    }

    /// The position of the leaf that the chain leads to, in a tree of `count`
    /// leaves: a sibling on the left means that the leaf lies in the right
    /// subtree, after the `split_point(count)` leaves of the left one.
    pub open spec fn index(self, count: nat) -> nat
        decreases self,
    {
        let left = split_point(count);
        match (self.sub_conjecture, self.sibling_hash) {
            (Some(below), Some(Side::Left(_))) => left + below.index((count - left) as nat),
            (Some(below), Some(Side::Right(_))) => below.index(left),
            _ => 0,
        }
    }

    /// The hash of the leaf that the chain leads to.
    pub open spec fn leaf_hash(self) -> Seq<u8>
        decreases self,
    {
        match self.sub_conjecture {
            Some(below) => below.leaf_hash(),
            None => self.node_hash,
        }
    }
}

/// The chain to the leftmost leaf of `tree` whose hash is `needle`, if there
/// is such a leaf: the search tries the left subtree before the right one.
pub open spec fn find(tree: TreeView, needle: Seq<u8>) -> Option<ChainView>
    decreases tree,
{
    match tree {
        TreeView::Empty { .. } => None,
        TreeView::Leaf { hash, .. } => if hash == needle {
            Some(ChainView::terminal(hash))
        } else {
            None
        },
        TreeView::Node { hash, left, right } => match find(*left, needle) {
            Some(below) => Some(ChainView::step(hash, Side::Right(right.hash()), below)),
            None => match find(*right, needle) {
                Some(below) => Some(ChainView::step(hash, Side::Left(left.hash()), below)),
                None => None,
            },
        },
    }
}

/// The chain to leaf `i` of `tree` and the block at that leaf, where `tree`
/// has the shape of a tree of `count` leaves, and nothing where `i` is no
/// position in such a tree or the shape is another.
pub open spec fn locate(tree: TreeView, i: nat, count: nat) -> Option<(ChainView, Seq<u8>)>
    decreases tree,
{
    if i >= count {
        None
    } else {
        match tree {
            TreeView::Empty { .. } => None,
            TreeView::Leaf { hash, value } => if count == 1 {
                Some((ChainView::terminal(hash), value))
            } else {
                None
            },
            TreeView::Node { hash, left, right } => {
                let at = split_point(count);
                if i < at {
                    match locate(*left, i, at) {
                        Some((below, value)) => Some(
                            (ChainView::step(hash, Side::Right(right.hash()), below), value),
                        ),
                        None => None,
                    }
                } else {
                    match locate(*right, (i - at) as nat, (count - at) as nat) {
                        Some((below, value)) => Some(
                            (ChainView::step(hash, Side::Left(left.hash()), below), value),
                        ),
                        None => None,
                    }
                }
            },
        }
    }
}

/// A valid chain is well formed.
pub proof fn lemma_valid_is_well_formed(chain: ChainView, algorithm: HashAlgorithm)
    requires
        chain.valid(algorithm),
    ensures
        chain.well_formed(),
    decreases chain,
{
    match chain.sub_conjecture {
        Some(below) => lemma_valid_is_well_formed(*below, algorithm),
        None => {},
    }
}

/// The position that a chain gives lies within the tree; where the tree has
/// no leaves it is zero.
pub proof fn lemma_index_bound(chain: ChainView, count: nat)
    ensures
        chain.index(count) <= count,
        count >= 1 ==> chain.index(count) < count,
    decreases chain,
{
    let left = split_point(count);
    if count >= 2 {
        lemma_split_point_bounds(count);
    }
    match (chain.sub_conjecture, chain.sibling_hash) {
        (Some(below), Some(Side::Left(_))) => {
            lemma_index_bound(*below, (count - left) as nat);
        },
        (Some(below), Some(Side::Right(_))) => {
            lemma_index_bound(*below, left);
        },
        _ => {},
    }
}

/// One step of an inclusion proof: the hash of a node, the hash of the
/// sibling of the child that the proof goes through, and the rest of the
/// proof from that child down. The last step, the leaf's, has neither a
/// sibling nor a step below it.
#[derive(Debug, PartialEq, Eq, PartialOrd, Ord, Hash)]
pub struct Conjecture {
    pub node_hash: Vec<u8>,
    pub sibling_hash: Option<Side<Vec<u8>>>,
    pub sub_conjecture: Option<Box<Conjecture>>,
}

impl View for Conjecture {
    type V = ChainView;

    open spec fn view(&self) -> ChainView {
        self.model()
    }
}

/// The view of a tagged hash.
pub open spec fn side_view(side: Side<Vec<u8>>) -> Side<Seq<u8>> {
    match side {
        Side::Left(hash) => Side::Left(hash@),
        Side::Right(hash) => Side::Right(hash@),
    }
}

/// The view of a chain that may be absent.
pub open spec fn chain_view(chain: Option<Conjecture>) -> Option<ChainView> {
    match chain {
        Some(chain) => Some(chain@),
        None => None,
    }
}

/// The view of a chain and a block that may be absent.
pub open spec fn located_view(found: Option<(Conjecture, &Vec<u8>)>) -> Option<
    (ChainView, Seq<u8>),
> {
    match found {
        Some((chain, value)) => Some((chain@, value@)),
        None => None,
    }
}

impl Clone for Conjecture {
    fn clone(&self) -> (copy: Self)
        ensures
            copy@ == self@,
        decreases self,
    {
        Conjecture {
            node_hash: copy_bytes(self.node_hash.as_slice()),
            sibling_hash: match &self.sibling_hash {
                Some(Side::Left(hash)) => Some(Side::Left(copy_bytes(hash.as_slice()))),
                Some(Side::Right(hash)) => Some(Side::Right(copy_bytes(hash.as_slice()))),
                None => None,
            },
            sub_conjecture: match &self.sub_conjecture {
                Some(below) => Some(Box::new((&**below).clone())),
                None => None,
            },
        }
    }
}

impl Conjecture {
    /// What this chain holds, as mathematical values: its view.
    pub open spec fn model(&self) -> ChainView
        decreases self,
    {
        ChainView {
            node_hash: self.node_hash@,
            sibling_hash: match self.sibling_hash {
                Some(side) => Some(side_view(side)),
                None => None,
            },
            sub_conjecture: match self.sub_conjecture {
                Some(below) => Some(Box::new(below.model())),
                None => None,
            },
        }
    }

    /// Searches `tree` for the leftmost leaf whose hash is `needle` and
    /// returns the chain from the root to it.
    pub fn new(tree: &BinaryTree, needle: &[u8]) -> (found: Option<Conjecture>)
        ensures
            chain_view(found) == find(tree@, needle@),
        decreases tree@.size(), 1nat,
    {
        match tree {
            BinaryTree::Empty { .. } => None,
            BinaryTree::Leaf { hash, .. } => Conjecture::new_leaf_proof(hash.as_slice(), needle),
            BinaryTree::Node { hash, left, right } => Conjecture::new_tree_proof(
                hash.as_slice(),
                needle,
                left,
                right,
            ),
        }
    }

    /// Returns the chain to leaf `i` of `tree` together with the block at that
    /// leaf. `count` is the number of leaves of `tree`, which decides where
    /// each subtree divides. Nothing is returned where `i >= count`.
    pub fn new_by_index(tree: &BinaryTree, i: usize, count: usize) -> (found: Option<
        (Conjecture, &Vec<u8>),
    >)
        ensures
            located_view(found) == locate(tree@, i as nat, count as nat),
        decreases tree,
    {
        if i >= count {
            return None;
        }
        match tree {
            BinaryTree::Empty { .. } => None,
            BinaryTree::Leaf { hash, value } => {
                if count != 1 {
                    return None;
                }
                let chain = Conjecture {
                    node_hash: copy_bytes(hash.as_slice()),
                    sibling_hash: None,
                    sub_conjecture: None,
                };
                Some((chain, value))
            },
            BinaryTree::Node { hash, left, right } => {
                let at = left_count(count);
                proof {
                    if count >= 2 {
                        lemma_split_point_bounds(count as nat);
                    }
                }
                if i < at {
                    match Conjecture::new_by_index(left, i, at) {
                        Some((below, value)) => {
                            let chain = Conjecture {
                                node_hash: copy_bytes(hash.as_slice()),
                                sibling_hash: Some(
                                    Side::Right(copy_bytes(right.hash().as_slice())),
                                ),
                                sub_conjecture: Some(Box::new(below)),
                            };
                            Some((chain, value))
                        },
                        None => None,
                    }
                } else {
                    match Conjecture::new_by_index(right, i - at, count - at) {
                        Some((below, value)) => {
                            let chain = Conjecture {
                                node_hash: copy_bytes(hash.as_slice()),
                                sibling_hash: Some(Side::Left(copy_bytes(left.hash().as_slice()))),
                                sub_conjecture: Some(Box::new(below)),
                            };
                            Some((chain, value))
                        },
                        None => None,
                    }
                }
            },
        }
    }

    /// Whether every step has both a sibling and a step below it, or neither.
    pub fn is_well_formed(&self) -> (well_formed: bool)
        ensures
            well_formed == self@.well_formed(),
        decreases self,
    {
        match &self.sub_conjecture {
            Some(below) => self.sibling_hash.is_some() && below.is_well_formed(),
            None => self.sibling_hash.is_none(),
        }
    }

    /// The position of the leaf that this chain leads to, in a tree of `count`
    /// leaves. The chain must be well formed, as every chain is that
    /// `validate` accepts.
    pub fn index(&self, count: usize) -> (position: usize)
        requires
            self@.well_formed(),
        ensures
            position == self@.index(count as nat),
        decreases self,
    {
        let at = left_count(count);
        proof {
            if count >= 2 {
                lemma_split_point_bounds(count as nat);
            }
        }
        match (&self.sub_conjecture, &self.sibling_hash) {
            (Some(below), Some(Side::Left(_))) => {
                proof {
                    lemma_index_bound(below@, (count - at) as nat);
                }
                at + below.index(count - at)
            },
            (Some(below), Some(Side::Right(_))) => below.index(at),
            _ => 0,
        }
    }

    /// The chain for a leaf with the hash `hash`, where that is the hash
    /// looked for.
    fn new_leaf_proof(hash: &[u8], needle: &[u8]) -> (found: Option<Conjecture>)
        ensures
            chain_view(found) == if hash@ == needle@ {
                Some(ChainView::terminal(hash@))
            } else {
                None
            },
    {
        if bytes_eq(hash, needle) {
            Some(
                Conjecture {
                    node_hash: copy_bytes(hash),
                    sibling_hash: None,
                    sub_conjecture: None,
                },
            )
        } else {
            None
        }
    }

    /// The chain through an internal node with the hash `hash`: through
    /// `left` where the hash looked for is found there, else through `right`.
    fn new_tree_proof(hash: &[u8], needle: &[u8], left: &BinaryTree, right: &BinaryTree) -> (found:
        Option<Conjecture>)
        ensures
            chain_view(found) == match find(left@, needle@) {
                Some(below) => Some(
                    ChainView::step(hash@, Side::Right(right@.hash()), below),
                ),
                None => match find(right@, needle@) {
                    Some(below) => Some(
                        ChainView::step(hash@, Side::Left(left@.hash()), below),
                    ),
                    None => None,
                },
            },
        decreases left@.size() + right@.size() + 1, 0nat,
    {
        let found = match Conjecture::new(left, needle) {
            Some(below) => Some((below, Side::Right(copy_bytes(right.hash().as_slice())))),
            None => match Conjecture::new(right, needle) {
                Some(below) => Some((below, Side::Left(copy_bytes(left.hash().as_slice())))),
                None => None,
            },
        };
        match found {
            Some((below, sibling)) => Some(
                Conjecture {
                    node_hash: copy_bytes(hash),
                    sibling_hash: Some(sibling),
                    sub_conjecture: Some(Box::new(below)),
                },
            ),
            None => None,
        }
    }

    /// Whether the two hashes together are short enough to be hashed.
    fn can_combine(left: &[u8], right: &[u8]) -> (fits: bool)
        ensures
            fits == combinable(left@, right@),
    {
        left.len() as u64 <= MAX_INPUT_LEN && right.len() as u64 <= MAX_INPUT_LEN
            - left.len() as u64
    }

    /// Whether the chain is well formed and the hash of every step is the hash
    /// of the two hashes below it.
    fn validate(&self, algorithm: HashAlgorithm) -> (accepted: bool)
        ensures
            accepted == self@.valid(algorithm),
        decreases self,
    {
        match &self.sub_conjecture {
            None => self.sibling_hash.is_none(),
            Some(below) => match &self.sibling_hash {
                None => false,
                Some(Side::Left(hash)) => {
                    assert(self@.sub_conjecture == Some(Box::new(below@)));
                    assert(self@.sibling_hash == Some(Side::Left(hash@)));
                    if !Conjecture::can_combine(hash.as_slice(), below.node_hash.as_slice()) {
                        return false;
                    }
                    let combined = algorithm.hash_nodes(
                        hash.as_slice(),
                        below.node_hash.as_slice(),
                    );
                    let hashes_match = bytes_eq(combined.as_slice(), self.node_hash.as_slice());
                    hashes_match && below.validate(algorithm)
                },
                Some(Side::Right(hash)) => {
                    assert(self@.sub_conjecture == Some(Box::new(below@)));
                    assert(self@.sibling_hash == Some(Side::Right(hash@)));
                    if !Conjecture::can_combine(below.node_hash.as_slice(), hash.as_slice()) {
                        return false;
                    }
                    let combined = algorithm.hash_nodes(
                        below.node_hash.as_slice(),
                        hash.as_slice(),
                    );
                    let hashes_match = bytes_eq(combined.as_slice(), self.node_hash.as_slice());
                    hashes_match && below.validate(algorithm)
                },
            },
        }
    }
}

/// Why a proof was not accepted.
#[derive(Clone, Copy, Debug, PartialEq, Eq, Hash, Structural)]
pub enum Rejection {
    /// A step of the chain has a sibling and no step below it, or a step
    /// below it and no sibling.
    MalformedProof,
    /// The proof names another root than the one expected, or the hash of a
    /// step is not the hash of the two hashes below it.
    IntegrityViolation,
}

/// What a `Proof` holds, as mathematical values.
pub struct ProofView {
    pub root_hash: Seq<u8>,
    pub value: Seq<u8>,
    pub conjecture: ChainView,
    pub algorithm: HashAlgorithm,
}

impl ProofView {
    /// The proof names `expected_root` as its root, its first step carries
    /// that hash, and its chain is valid under the proof's algorithm.
    pub open spec fn validates(self, expected_root: Seq<u8>) -> bool {
        &&& self.root_hash == expected_root
        &&& self.conjecture.node_hash == expected_root
        &&& self.conjecture.valid(self.algorithm)
    }

    /// Why the proof is not accepted against `expected_root`, where it is
    /// not: a malformed chain is reported before anything else.
    pub open spec fn verdict(self, expected_root: Seq<u8>) -> Result<(), Rejection> {
        if !self.conjecture.well_formed() {
            Err(Rejection::MalformedProof)
        } else if self.validates(expected_root) {
            Ok(())
        } else {
            Err(Rejection::IntegrityViolation)
        }
    }

    /// The position of the proof's block in a tree of `count` leaves.
    pub open spec fn index(self, count: nat) -> nat {
        self.conjecture.index(count)
    }
}

/// Everything needed to show that `value` is a block of the Merkle tree with
/// the root hash `root_hash`, built with `algorithm`. Proofs are ordered by
/// root hash, then by block, then by chain.
#[derive(Debug, PartialEq, Eq, PartialOrd, Ord, Hash)]
pub struct Proof {
    /// The root hash of the tree that the proof was taken from.
    pub root_hash: Vec<u8>,
    /// The block that the proof is about.
    pub value: Vec<u8>,
    /// The first step of the chain from the root to the leaf.
    pub conjecture: Conjecture,
    /// The hash algorithm of that tree.
    pub algorithm: HashAlgorithm,
}

impl View for Proof {
    type V = ProofView;

    open spec fn view(&self) -> ProofView {
        ProofView {
            algorithm: self.algorithm,
            root_hash: self.root_hash@,
            conjecture: self.conjecture@,
            value: self.value@,
        }
    }
}

/// The view of a proof that may be absent.
pub open spec fn proof_view(given: Option<Proof>) -> Option<ProofView> {
    match given {
        Some(given) => Some(given@),
        None => None,
    }
}

impl Clone for Proof {
    fn clone(&self) -> (copy: Self)
        ensures
            copy@ == self@,
    {
        Proof {
            algorithm: self.algorithm,
            root_hash: copy_bytes(self.root_hash.as_slice()),
            conjecture: self.conjecture.clone(),
            value: copy_bytes(self.value.as_slice()),
        }
    }
}

impl Proof {
    /// A proof made of the given parts.
    pub fn new(
        algorithm: HashAlgorithm,
        root_hash: Vec<u8>,
        conjecture: Conjecture,
        value: Vec<u8>,
    ) -> (made: Self)
        ensures
            made@ == (ProofView {
                algorithm,
                root_hash: root_hash@,
                conjecture: conjecture@,
                value: value@,
            }),
    {
        Proof { algorithm, root_hash, conjecture, value }
    }

    /// Whether this proof is well formed and leads to `root_hash`: it is
    /// rejected where it names another root, where its first step carries
    /// another hash, and where a step's hash is not the hash of the two hashes
    /// below it.
    pub fn validate(&self, root_hash: &[u8]) -> (accepted: bool)
        ensures
            accepted == self@.validates(root_hash@),
            accepted ==> self@.conjecture.well_formed(),
    {
        if !bytes_eq(self.root_hash.as_slice(), root_hash) || !bytes_eq(
            self.conjecture.node_hash.as_slice(),
            root_hash,
        ) {
            return false;
        }
        let accepted = self.conjecture.validate(self.algorithm);
        proof {
            if accepted {
                lemma_valid_is_well_formed(self@.conjecture, self.algorithm);
            }
        }
        accepted
    }

    /// Validates this proof against `root_hash` and says why where it fails:
    /// the chain is malformed, or it is well formed and the proof does not
    /// lead to `root_hash`.
    pub fn check(&self, root_hash: &[u8]) -> (verdict: Result<(), Rejection>)
        ensures
            verdict == self@.verdict(root_hash@),
            verdict is Ok <==> self@.validates(root_hash@),
    {
        if !self.conjecture.is_well_formed() {
            proof {
                if self@.conjecture.valid(self.algorithm) {
                    lemma_valid_is_well_formed(self@.conjecture, self.algorithm);
                }
            }
            Err(Rejection::MalformedProof)
        } else if self.validate(root_hash) {
            Ok(())
        } else {
            Err(Rejection::IntegrityViolation)
        }
    }

    /// The position of this proof's block in a tree of `count` leaves. The
    /// proof must be well formed, as every proof is that `validate` accepts.
    pub fn index(&self, count: usize) -> (position: usize)
        requires
            self@.conjecture.well_formed(),
        ensures
            position == self@.index(count as nat),
    {
        self.conjecture.index(count)
    }
}

} // verus!
