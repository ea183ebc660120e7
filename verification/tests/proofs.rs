use merkle_tree::hashing::HashAlgorithm;
use merkle_tree::inclusion::{Conjecture, Proof, Rejection, Side};
use merkle_tree::merkletree::MerkleTree;
use merkle_tree::tree::BinaryTree;

const DIGEST: HashAlgorithm = HashAlgorithm::Sha256;

fn h(i: u8) -> Vec<u8> {
    DIGEST.hash_leaf(&[i])
}

fn n(left: &[u8], right: &[u8]) -> Vec<u8> {
    DIGEST.hash_nodes(left, right)
}

fn terminal(hash: Vec<u8>) -> Conjecture {
    Conjecture { node_hash: hash, sibling_hash: None, sub_conjecture: None }
}

fn step(hash: Vec<u8>, sibling: Side<Vec<u8>>, below: Conjecture) -> Conjecture {
    Conjecture { node_hash: hash, sibling_hash: Some(sibling), sub_conjecture: Some(Box::new(below)) }
}

fn three() -> MerkleTree {
    MerkleTree::from_vec(DIGEST, vec![vec![1], vec![2], vec![3]])
}

#[test]
fn the_chain_names_the_sibling_at_every_step() {
    let tree = three();
    let h12 = n(&h(1), &h(2));
    let root = n(&h12, &h(3));

    let first = tree.gen_nth_proof(0).unwrap();
    assert_eq!(first.algorithm, DIGEST);
    assert_eq!(first.root_hash, root);
    assert_eq!(first.value, vec![1]);
    assert_eq!(
        first.conjecture,
        step(
            root.clone(),
            Side::Right(h(3)),
            step(h12.clone(), Side::Right(h(2)), terminal(h(1)))
        )
    );

    let second = tree.gen_nth_proof(1).unwrap();
    assert_eq!(
        second.conjecture,
        step(
            root.clone(),
            Side::Right(h(3)),
            step(h12.clone(), Side::Left(h(1)), terminal(h(2)))
        )
    );

    let third = tree.gen_nth_proof(2).unwrap();
    assert_eq!(third.value, vec![3]);
    assert_eq!(third.conjecture, step(root.clone(), Side::Left(h12), terminal(h(3))));
}

#[test]
fn a_proof_by_value_is_the_proof_by_position() {
    for count in 1u8..24 {
        let values = (0..count).map(|i| vec![i]).collect::<Vec<_>>();
        let tree = MerkleTree::from_vec(DIGEST, values.clone());
        for (i, value) in values.into_iter().enumerate() {
            let by_value = tree.gen_proof(value).unwrap();
            let by_position = tree.gen_nth_proof(i).unwrap();
            assert_eq!(by_value, by_position);
            assert!(by_value.validate(tree.root_hash()));
            assert_eq!(by_value.index(tree.count()), i);
        }
    }
}

#[test]
fn a_value_that_is_no_block_has_no_proof() {
    let tree = three();
    assert!(tree.gen_proof(vec![4]).is_none());
    assert!(tree.gen_proof(vec![]).is_none());
    assert!(tree.gen_proof(vec![1, 2]).is_none());
    assert!(tree.gen_proof(h(1)).is_none());
}

#[test]
fn of_equal_blocks_the_leftmost_is_proved() {
    let tree = MerkleTree::from_vec(DIGEST, vec![vec![7], vec![8], vec![7], vec![8], vec![7]]);
    let seven = tree.gen_proof(vec![7]).unwrap();
    assert_eq!(seven.index(5), 0);
    assert_eq!(seven, tree.gen_nth_proof(0).unwrap());
    let eight = tree.gen_proof(vec![8]).unwrap();
    assert_eq!(eight.index(5), 1);
    assert!(eight.validate(tree.root_hash()));
    assert_eq!(tree.gen_nth_proof(4).unwrap().index(5), 4);
    assert_eq!(tree.gen_nth_proof(4).unwrap().value, vec![7]);
}

#[test]
fn positions_past_the_end_have_no_proof() {
    for count in 0..20 {
        let tree = MerkleTree::from_vec(DIGEST, (0..count).map(|i| vec![i as u8]).collect());
        assert!(tree.gen_nth_proof(count).is_none());
        assert!(tree.gen_nth_proof(count + 1).is_none());
        assert!(tree.gen_nth_proof(usize::MAX).is_none());
    }
}

#[test]
fn a_proof_fails_against_another_root() {
    let tree = three();
    let other = MerkleTree::from_vec(DIGEST, vec![vec![4], vec![5], vec![6], vec![7]]);
    let overlapping = MerkleTree::from_vec(DIGEST, vec![vec![1], vec![2], vec![4]]);
    let proof = tree.gen_proof(vec![2]).unwrap();
    assert!(proof.validate(tree.root_hash()));
    assert!(!proof.validate(other.root_hash()));
    assert!(!proof.validate(overlapping.root_hash()));
    assert!(!proof.validate(&[]));
    assert!(!other.gen_proof(vec![5]).unwrap().validate(tree.root_hash()));
    assert!(!overlapping.gen_proof(vec![2]).unwrap().validate(tree.root_hash()));
    for i in 0..3 {
        assert!(!tree.gen_nth_proof(i).unwrap().validate(overlapping.root_hash()));
    }
}

#[test]
fn a_proof_must_name_the_root_twice() {
    let tree = three();
    let root = tree.root_hash().clone();
    let good = tree.gen_nth_proof(1).unwrap();

    let mut wrong_root = good.clone();
    wrong_root.root_hash = h(9);
    assert!(!wrong_root.validate(&root));
    assert!(!wrong_root.validate(&h(9)));

    let mut wrong_first_step = good.clone();
    wrong_first_step.conjecture.node_hash = h(9);
    assert!(!wrong_first_step.validate(&root));
}

#[test]
fn a_step_whose_hash_does_not_combine_is_rejected() {
    let tree = three();
    let root = tree.root_hash().clone();
    let good = tree.gen_nth_proof(0).unwrap();
    assert!(good.validate(&root));

    let mut wrong_sibling = good.clone();
    wrong_sibling.conjecture.sibling_hash = Some(Side::Right(h(4)));
    assert!(!wrong_sibling.validate(&root));

    let mut wrong_side = good.clone();
    wrong_side.conjecture.sibling_hash = Some(Side::Left(h(3)));
    assert!(!wrong_side.validate(&root));

    let mut wrong_leaf = good.clone();
    wrong_leaf.conjecture.sub_conjecture.as_mut().unwrap().sub_conjecture =
        Some(Box::new(terminal(h(5))));
    assert!(!wrong_leaf.validate(&root));

    let mut wrong_algorithm = good.clone();
    wrong_algorithm.algorithm = HashAlgorithm::Sha512_256;
    assert!(!wrong_algorithm.validate(&root));
}

#[test]
fn a_malformed_chain_is_rejected() {
    let root = h(1);
    let only_sibling = Proof::new(
        DIGEST,
        root.clone(),
        Conjecture { node_hash: root.clone(), sibling_hash: Some(Side::Left(h(2))), sub_conjecture: None },
        vec![1],
    );
    assert!(!only_sibling.validate(&root));

    let only_below = Proof::new(
        DIGEST,
        root.clone(),
        Conjecture {
            node_hash: root.clone(),
            sibling_hash: None,
            sub_conjecture: Some(Box::new(terminal(root.clone()))),
        },
        vec![1],
    );
    assert!(!only_below.validate(&root));

    let node = n(&h(2), &h(1));
    let malformed_below = Proof::new(
        DIGEST,
        node.clone(),
        step(
            node.clone(),
            Side::Left(h(2)),
            Conjecture { node_hash: h(1), sibling_hash: Some(Side::Left(h(2))), sub_conjecture: None },
        ),
        vec![1],
    );
    assert!(!malformed_below.validate(&node));

    let well_formed = Proof::new(DIGEST, node.clone(), step(node.clone(), Side::Left(h(2)), terminal(h(1))), vec![1]);
    assert!(well_formed.validate(&node));
}

#[test]
fn validation_accepts_hashes_of_any_length() {
    let node = n(b"ab", b"c");
    let proof = Proof::new(
        DIGEST,
        node.clone(),
        step(node.clone(), Side::Right(b"c".to_vec()), terminal(b"ab".to_vec())),
        vec![],
    );
    assert!(proof.validate(&node));
    let swapped = Proof::new(
        DIGEST,
        node.clone(),
        step(node.clone(), Side::Left(b"c".to_vec()), terminal(b"ab".to_vec())),
        vec![],
    );
    assert!(!swapped.validate(&node));
}

#[test]
fn the_position_follows_the_sides() {
    let t = || terminal(vec![]);
    let left = |below| step(vec![], Side::Left(vec![]), below);
    let right = |below| step(vec![], Side::Right(vec![]), below);

    assert_eq!(t().index(1), 0);
    assert_eq!(t().index(0), 0);
    assert_eq!(left(t()).index(2), 1);
    assert_eq!(right(t()).index(2), 0);
    // Of five leaves the left subtree holds four.
    assert_eq!(left(t()).index(5), 4);
    assert_eq!(right(right(left(t()))).index(5), 1);
    assert_eq!(right(left(right(t()))).index(5), 2);
    // Of 22 leaves: sixteen on the left, then four of the six others, then one of the two.
    assert_eq!(left(left(left(t()))).index(22), 21);
    assert_eq!(left(left(right(t()))).index(22), 20);
    assert_eq!(left(right(right(right(t())))).index(22), 16);

    let proof = Proof::new(DIGEST, vec![], left(right(left(t()))), vec![]);
    assert_eq!(proof.index(7), 5);
}

#[test]
fn searching_a_tree_by_hand() {
    let leaf = |i: u8| BinaryTree::new_leaf(DIGEST, vec![i]);
    let tree = BinaryTree::new_node(DIGEST, BinaryTree::new_node(DIGEST, leaf(1), leaf(2)), leaf(3));
    let root = tree.hash().clone();
    let h12 = n(&h(1), &h(2));

    assert_eq!(
        Conjecture::new(&tree, &h(2)),
        Some(step(root.clone(), Side::Right(h(3)), step(h12.clone(), Side::Left(h(1)), terminal(h(2)))))
    );
    assert_eq!(
        Conjecture::new(&tree, &h(3)),
        Some(step(root.clone(), Side::Left(h12.clone()), terminal(h(3))))
    );
    assert_eq!(Conjecture::new(&tree, &h(4)), None);
    assert_eq!(Conjecture::new(&tree, &root), None);
    assert_eq!(Conjecture::new(&BinaryTree::empty(h(1)), &h(1)), None);
    assert_eq!(Conjecture::new(&leaf(1), &h(1)), Some(terminal(h(1))));

    let (chain, value) = Conjecture::new_by_index(&tree, 2, 3).unwrap();
    assert_eq!(value, &vec![3]);
    assert_eq!(chain, step(root.clone(), Side::Left(h12), terminal(h(3))));
    assert_eq!(chain.index(3), 2);

    assert_eq!(Conjecture::new_by_index(&tree, 3, 3), None);
    assert_eq!(Conjecture::new_by_index(&BinaryTree::empty(h(1)), 0, 1), None);
    // A count that is not that of the tree leads to a leaf too early or too late.
    assert_eq!(Conjecture::new_by_index(&leaf(1), 0, 2), None);
    assert_eq!(Conjecture::new_by_index(&tree, 0, 5), None);
}

#[test]
fn proofs_compare_and_clone() {
    let tree = three();
    let proof = tree.gen_nth_proof(1).unwrap();
    assert_eq!(proof.clone(), proof);
    assert_ne!(proof, tree.gen_nth_proof(2).unwrap());
    assert_eq!(proof.conjecture.clone(), proof.conjecture);
    let same = Proof::new(proof.algorithm, proof.root_hash.clone(), proof.conjecture.clone(), proof.value.clone());
    assert_eq!(same, proof);
}

#[test]
fn a_rejection_says_why() {
    let tree = three();
    let root = tree.root_hash().clone();
    let good = tree.gen_nth_proof(1).unwrap();
    assert_eq!(good.check(&root), Ok(()));
    assert!(good.conjecture.is_well_formed());

    let other = MerkleTree::from_vec(DIGEST, vec![vec![1], vec![2], vec![4]]);
    assert_eq!(good.check(other.root_hash()), Err(Rejection::IntegrityViolation));

    let mut wrong_sibling = good.clone();
    wrong_sibling.conjecture.sibling_hash = Some(Side::Right(h(4)));
    assert_eq!(wrong_sibling.check(&root), Err(Rejection::IntegrityViolation));

    let mut cut_short = good.clone();
    cut_short.conjecture.sub_conjecture = None;
    assert!(!cut_short.conjecture.is_well_formed());
    assert_eq!(cut_short.check(&root), Err(Rejection::MalformedProof));
    assert_eq!(cut_short.check(&h(9)), Err(Rejection::MalformedProof));

    let mut no_sibling = good.clone();
    no_sibling.conjecture.sub_conjecture.as_mut().unwrap().sibling_hash = None;
    assert!(!no_sibling.conjecture.is_well_formed());
    assert_eq!(no_sibling.check(&root), Err(Rejection::MalformedProof));
    assert!(!no_sibling.validate(&root));
}
