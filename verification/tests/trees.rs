use merkle_tree::hashing::HashAlgorithm;
use merkle_tree::inclusion::{Conjecture, Side};
use merkle_tree::merkletree::MerkleTree;
use merkle_tree::tree::BinaryTree;

const DIGEST: HashAlgorithm = HashAlgorithm::Sha256;

fn blocks(count: usize) -> Vec<Vec<u8>> {
    (0..count).map(|i| vec![i as u8, (i >> 8) as u8]).collect()
}

/// The tree over `values`, put together from the root down.
fn by_hand(values: &[Vec<u8>]) -> BinaryTree {
    if values.len() == 1 {
        return BinaryTree::new_leaf(DIGEST, values[0].clone());
    }
    let at = values.len().next_power_of_two() / 2;
    BinaryTree::new_node(DIGEST, by_hand(&values[..at]), by_hand(&values[at..]))
}

#[test]
fn the_empty_tree_has_the_hash_of_nothing() {
    let tree = MerkleTree::from_vec(DIGEST, vec![]);
    assert_eq!(tree.count(), 0);
    assert_eq!(tree.height(), 0);
    assert!(tree.is_empty());
    assert_eq!(tree.root_hash(), &DIGEST.hash_empty());
    assert_eq!(tree.algorithm(), DIGEST);
    assert!(tree.gen_proof(vec![]).is_none());
    assert!(tree.gen_proof(vec![1]).is_none());
    assert!(tree.gen_nth_proof(0).is_none());
}

#[test]
fn a_single_block_is_the_root() {
    let tree = MerkleTree::from_vec(DIGEST, vec![vec![42]]);
    assert_eq!(tree.count(), 1);
    assert_eq!(tree.height(), 0);
    assert!(!tree.is_empty());
    assert_eq!(tree.root_hash(), &DIGEST.hash_leaf(&[42]));
    let proof = tree.gen_nth_proof(0).unwrap();
    assert_eq!(
        proof.conjecture,
        Conjecture { node_hash: DIGEST.hash_leaf(&[42]), sibling_hash: None, sub_conjecture: None }
    );
    assert!(proof.validate(tree.root_hash()));
    assert_eq!(proof.index(1), 0);
}

#[test]
fn height_is_the_number_of_fold_rounds() {
    let expected = [
        (0, 0),
        (1, 0),
        (2, 1),
        (3, 2),
        (4, 2),
        (5, 3),
        (6, 3),
        (7, 3),
        (10, 4),
        (15, 4),
        (16, 4),
        (17, 5),
        (22, 5),
    ];
    for (count, height) in expected {
        let tree = MerkleTree::from_vec(DIGEST, blocks(count));
        assert_eq!(tree.height(), height, "count {}", count);
        assert_eq!(tree.count(), count);
    }
}

#[test]
fn an_unpaired_node_moves_up_unchanged() {
    let h = |i: u8| DIGEST.hash_leaf(&[i]);
    let n = |l: &Vec<u8>, r: &Vec<u8>| DIGEST.hash_nodes(l, r);

    let five = MerkleTree::from_vec(DIGEST, (0..5).map(|i| vec![i]).collect());
    let expected = n(&n(&n(&h(0), &h(1)), &n(&h(2), &h(3))), &h(4));
    assert_eq!(five.root_hash(), &expected);

    let six = MerkleTree::from_vec(DIGEST, (0..6).map(|i| vec![i]).collect());
    let expected = n(&n(&n(&h(0), &h(1)), &n(&h(2), &h(3))), &n(&h(4), &h(5)));
    assert_eq!(six.root_hash(), &expected);

    let seven = MerkleTree::from_vec(DIGEST, (0..7).map(|i| vec![i]).collect());
    let expected =
        n(&n(&n(&h(0), &h(1)), &n(&h(2), &h(3))), &n(&n(&h(4), &h(5)), &h(6)));
    assert_eq!(seven.root_hash(), &expected);
}

#[test]
fn the_folded_tree_divides_at_the_split_point() {
    for count in 1..40 {
        let values = blocks(count);
        let tree = MerkleTree::from_vec(DIGEST, values.clone());
        assert_eq!(tree.root_hash(), by_hand(&values).hash(), "count {}", count);
    }
}

#[test]
fn the_root_depends_on_every_byte_and_on_the_order() {
    let values = blocks(9);
    let root = MerkleTree::from_vec(DIGEST, values.clone()).root_hash().clone();
    assert_eq!(&root, MerkleTree::from_vec(DIGEST, values.clone()).root_hash());

    for i in 0..values.len() {
        let mut changed = values.clone();
        changed[i][0] ^= 1;
        assert_ne!(&root, MerkleTree::from_vec(DIGEST, changed).root_hash());
    }
    for i in 1..values.len() {
        let mut swapped = values.clone();
        swapped.swap(0, i);
        assert_ne!(&root, MerkleTree::from_vec(DIGEST, swapped).root_hash());
    }
    assert_ne!(&root, MerkleTree::from_vec(HashAlgorithm::Sha512_256, values).root_hash());
}

#[test]
fn trees_compare_and_clone() {
    let tree = MerkleTree::from_vec(DIGEST, blocks(5));
    let copy = tree.clone();
    assert_eq!(tree, copy);
    assert_eq!(copy.root_hash(), tree.root_hash());
    assert_ne!(tree, MerkleTree::from_vec(DIGEST, blocks(6)));
    assert_ne!(tree, MerkleTree::from_vec(HashAlgorithm::Sha1, blocks(5)));
}

#[test]
fn binary_trees_carry_the_hash_they_are_given() {
    let empty = BinaryTree::empty(vec![1, 2, 3]);
    assert_eq!(empty, BinaryTree::Empty { hash: vec![1, 2, 3] });
    assert_eq!(empty.hash(), &vec![1, 2, 3]);

    let leaf = BinaryTree::new(vec![4, 5], vec![6]);
    assert_eq!(leaf, BinaryTree::Leaf { hash: vec![4, 5], value: vec![6] });
    assert_eq!(leaf.hash(), &vec![4, 5]);

    let hashed = BinaryTree::new_leaf(DIGEST, vec![6]);
    assert_eq!(hashed, BinaryTree::Leaf { hash: DIGEST.hash_leaf(&[6]), value: vec![6] });

    let node = BinaryTree::new_node(DIGEST, leaf.clone(), hashed.clone());
    assert_eq!(node.hash(), &DIGEST.hash_nodes(&[4, 5], &DIGEST.hash_leaf(&[6])));
    assert_eq!(
        node,
        BinaryTree::Node {
            hash: DIGEST.hash_nodes(&[4, 5], &DIGEST.hash_leaf(&[6])),
            left: Box::new(leaf),
            right: Box::new(hashed),
        }
    );
    assert_eq!(node.clone(), node);
}

#[test]
fn sides_clone() {
    let left = Side::Left(vec![1u8]);
    assert_eq!(left.clone(), Side::Left(vec![1u8]));
    assert_ne!(left, Side::Right(vec![1u8]));
}

#[test]
fn the_root_binds_lists_of_one_length_only() {
    // Leaves and internal nodes are hashed alike, so the block made of two
    // leaf hashes has the root of the tree over the two blocks.
    let two = MerkleTree::from_vec(DIGEST, vec![vec![1], vec![2]]);
    let mut joined = DIGEST.hash_leaf(&[1]);
    joined.extend_from_slice(&DIGEST.hash_leaf(&[2]));
    let one = MerkleTree::from_vec(DIGEST, vec![joined]);
    assert_eq!(one.root_hash(), two.root_hash());
    assert_ne!(one.count(), two.count());
}
