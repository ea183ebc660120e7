use merkle_tree::hashing::{bytes_eq, copy_bytes, HashAlgorithm, MAX_INPUT_LEN};
use merkle_tree::shape::left_count;

const ALL: [HashAlgorithm; 5] = [
    HashAlgorithm::Sha1,
    HashAlgorithm::Sha256,
    HashAlgorithm::Sha384,
    HashAlgorithm::Sha512,
    HashAlgorithm::Sha512_256,
];

fn hex(bytes: &[u8]) -> String {
    bytes.iter().map(|byte| format!("{:02x}", byte)).collect::<Vec<_>>().concat()
}

fn ring_algorithm(algorithm: HashAlgorithm) -> &'static ring::digest::Algorithm {
    match algorithm {
        HashAlgorithm::Sha1 => &ring::digest::SHA1_FOR_LEGACY_USE_ONLY,
        HashAlgorithm::Sha256 => &ring::digest::SHA256,
        HashAlgorithm::Sha384 => &ring::digest::SHA384,
        HashAlgorithm::Sha512 => &ring::digest::SHA512,
        HashAlgorithm::Sha512_256 => &ring::digest::SHA512_256,
    }
}

#[test]
fn leaf_hash_is_the_digest_of_the_value() {
    assert_eq!(
        hex(&HashAlgorithm::Sha256.hash_leaf(b"abc")),
        "ba7816bf8f01cfea414140de5dae2223b00361a396177a9cb410ff61f20015ad"
    );
    assert_eq!(
        hex(&HashAlgorithm::Sha1.hash_leaf(b"abc")),
        "a9993e364706816aba3e25717850c26c9cd0d89d"
    );
}

#[test]
fn empty_hash_is_the_digest_of_nothing() {
    assert_eq!(
        hex(&HashAlgorithm::Sha256.hash_empty()),
        "e3b0c44298fc1c149afbf4c8996fb92427ae41e4649b934ca495991b7852b855"
    );
    assert_eq!(
        hex(&HashAlgorithm::Sha512.hash_empty()),
        "cf83e1357eefb8bdf1542850d66d8007d620e4050b5715dc83f4a921d36ce9ce\
         47d0d13c5d85f2b0ff8318d2877eec2f63b931bd47417a81a538327af927da3e"
    );
    for algorithm in ALL {
        assert_eq!(algorithm.hash_empty(), algorithm.hash_leaf(&[]));
    }
}

#[test]
fn node_hash_is_the_digest_of_left_then_right() {
    for algorithm in ALL {
        let left = algorithm.hash_leaf(b"left");
        let right = algorithm.hash_leaf(b"right");
        let mut joined = left.clone();
        joined.extend_from_slice(&right);
        assert_eq!(algorithm.hash_nodes(&left, &right), algorithm.hash_leaf(&joined));
        assert_ne!(algorithm.hash_nodes(&left, &right), algorithm.hash_nodes(&right, &left));
    }
    assert_eq!(
        hex(&HashAlgorithm::Sha256.hash_nodes(b"a", b"bc")),
        "ba7816bf8f01cfea414140de5dae2223b00361a396177a9cb410ff61f20015ad"
    );
}

#[test]
fn every_algorithm_gives_the_digest_of_its_namesake() {
    let data = b"The quick brown fox jumps over the lazy dog";
    for algorithm in ALL {
        let expected = ring::digest::digest(ring_algorithm(algorithm), data);
        assert_eq!(algorithm.hash_leaf(data).as_slice(), expected.as_ref());
    }
    let digests = ALL.iter().map(|algorithm| algorithm.hash_leaf(data)).collect::<Vec<_>>();
    for i in 0..digests.len() {
        for j in 0..i {
            assert_ne!(digests[i], digests[j]);
        }
    }
}

#[test]
fn digests_have_the_output_length() {
    let lengths = [20, 32, 48, 64, 32];
    for (algorithm, length) in ALL.iter().zip(lengths) {
        assert_eq!(ring_algorithm(*algorithm).output_len(), length);
        assert_eq!(algorithm.hash_empty().len(), length);
        assert_eq!(algorithm.hash_leaf(&[7; 1000]).len(), length);
        assert_eq!(algorithm.hash_nodes(&[1; 200], &[2; 300]).len(), length);
    }
}

#[test]
fn the_input_limit_is_two_to_the_sixty_one_less_one() {
    assert_eq!(MAX_INPUT_LEN, (1u64 << 61) - 1);
}

#[test]
fn bytes_compare_by_content() {
    assert!(bytes_eq(&[], &[]));
    assert!(bytes_eq(&[1, 2, 3], &[1, 2, 3]));
    assert!(!bytes_eq(&[1, 2, 3], &[1, 2, 4]));
    assert!(!bytes_eq(&[1, 2, 3], &[1, 2]));
    assert!(!bytes_eq(&[], &[0]));
    assert_eq!(copy_bytes(&[9, 8, 7]), vec![9, 8, 7]);
    assert_eq!(copy_bytes(&[]), Vec::<u8>::new());
}

#[test]
fn the_left_subtree_takes_the_greatest_power_of_two_below_the_count() {
    let expected = [
        (0, 0),
        (1, 0),
        (2, 1),
        (3, 2),
        (4, 2),
        (5, 4),
        (6, 4),
        (7, 4),
        (8, 4),
        (9, 8),
        (10, 8),
        (15, 8),
        (16, 8),
        (17, 16),
        (22, 16),
        (1024, 512),
        (1025, 1024),
    ];
    for (count, left) in expected {
        assert_eq!(left_count(count), left, "count {}", count);
    }
    assert_eq!(left_count(usize::MAX), 1 << (usize::BITS - 1));
    for count in 2usize..200 {
        assert_eq!(left_count(count), count.next_power_of_two() / 2);
    }
}
