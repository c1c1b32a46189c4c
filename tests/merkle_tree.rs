use merkle::hash::sha3::Sha3Hasher;
use merkle::hash::Hasher;
use merkle::{MerkleProof, MerkleTree, PositionedHash};

fn byte_items(items: &[String]) -> Vec<&[u8]> {
    items.iter().map(|s| s.as_bytes()).collect()
}

fn numbered(n: usize) -> Vec<String> {
    (0..n).map(|i| i.to_string()).collect()
}

#[test]
fn test_new_one() {
    let hasher = Sha3Hasher;

    let value = "one";
    let hash = hasher.hash(value.as_bytes());
    let tree = MerkleTree::new(&[value.as_bytes()], hasher);

    let root_hash = tree.root();
    assert_eq!(root_hash, hash);
}

#[test]
fn test_new_two() {
    let hasher = Sha3Hasher;

    let one = "one";
    let two = "two";
    let one_hash = hasher.hash(one.as_bytes());
    let two_hash = hasher.hash(two.as_bytes());
    let tree = MerkleTree::new(&[one.as_bytes(), two.as_bytes()], hasher);

    let root_hash = tree.root();
    let expected_root_hash = hasher.concat_hashes(one_hash, two_hash);
    assert_eq!(root_hash, expected_root_hash);
}

#[test]
fn test_new_three() {
    let hasher = Sha3Hasher;

    let one = "one";
    let two = "two";
    let three = "three";
    let one_hash = hasher.hash(one.as_bytes());
    let two_hash = hasher.hash(two.as_bytes());
    let three_hash = hasher.hash(three.as_bytes());
    let tree = MerkleTree::new(&[one.as_bytes(), two.as_bytes(), three.as_bytes()], hasher);

    let root_hash = tree.root();
    let expected_root_hash = {
        let one_two_hash = hasher.concat_hashes(one_hash, two_hash);
        let three_three_hash = hasher.concat_hashes(three_hash, three_hash);
        hasher.concat_hashes(one_two_hash, three_three_hash)
    };
    assert_eq!(root_hash, expected_root_hash);
}

#[test]
fn test_proof() {
    let hasher = Sha3Hasher;

    let items = (0..8).map(|n| n.to_string()).collect::<Vec<_>>();

    let hash_0 = hasher.hash(items[0].as_bytes());
    let hash_1 = hasher.hash(items[1].as_bytes());
    let hash_2 = hasher.hash(items[2].as_bytes());
    let hash_3 = hasher.hash(items[3].as_bytes());
    let hash_01 = hasher.concat_hashes(hash_0, hash_1);
    let hash_23 = hasher.concat_hashes(hash_2, hash_3);
    let hash_03 = hasher.concat_hashes(hash_01, hash_23);

    let hash_4 = hasher.hash(items[4].as_bytes());
    let hash_5 = hasher.hash(items[5].as_bytes());
    let hash_6 = hasher.hash(items[6].as_bytes());
    let hash_7 = hasher.hash(items[7].as_bytes());
    let hash_45 = hasher.concat_hashes(hash_4, hash_5);
    let hash_67 = hasher.concat_hashes(hash_6, hash_7);
    let hash_47 = hasher.concat_hashes(hash_45, hash_67);

    let hash_07 = hasher.concat_hashes(hash_03, hash_47);

    let tree = MerkleTree::new(&byte_items(&items), hasher);

    assert_eq!(tree.root(), hash_07);

    assert_eq!(
        tree.inclusion_proof(0),
        MerkleProof {
            root: tree.root(),
            path: vec![
                PositionedHash::Right(hash_1),
                PositionedHash::Right(hash_23),
                PositionedHash::Right(hash_47),
            ]
        }
    );

    assert_eq!(
        tree.inclusion_proof(1),
        MerkleProof {
            root: tree.root(),
            path: vec![
                PositionedHash::Left(hash_0),
                PositionedHash::Right(hash_23),
                PositionedHash::Right(hash_47),
            ]
        }
    );

    assert_eq!(
        tree.inclusion_proof(3),
        MerkleProof {
            root: tree.root(),
            path: vec![
                PositionedHash::Left(hash_2),
                PositionedHash::Left(hash_01),
                PositionedHash::Right(hash_47),
            ]
        }
    );

    let proof_6 = tree.inclusion_proof(6);
    assert_eq!(
        proof_6,
        MerkleProof {
            root: tree.root(),
            path: vec![
                PositionedHash::Right(hash_7),
                PositionedHash::Left(hash_45),
                PositionedHash::Left(hash_03),
            ]
        }
    );

    assert!(proof_6.validate(items[6].as_bytes(), &hasher));
    assert!(!proof_6.validate(b"foo", &hasher));
}

#[test]
fn repeated_builds_give_the_same_root() {
    let items = numbered(5);
    let first = MerkleTree::new(&byte_items(&items), Sha3Hasher);
    let second = MerkleTree::new(&byte_items(&items), Sha3Hasher);
    assert_eq!(first.root(), second.root());
}

#[test]
fn four_items_use_four_distinct_leaves() {
    let hasher = Sha3Hasher;
    let items = numbered(4);
    let tree = MerkleTree::new(&byte_items(&items), hasher);
    let h: Vec<_> = items.iter().map(|s| hasher.hash(s.as_bytes())).collect();
    let expected = hasher.concat_hashes(
        hasher.concat_hashes(h[0], h[1]),
        hasher.concat_hashes(h[2], h[3]),
    );
    assert_eq!(tree.root(), expected);
    assert_eq!(
        tree.inclusion_proof(3).path,
        vec![
            PositionedHash::Left(h[2]),
            PositionedHash::Left(hasher.concat_hashes(h[0], h[1])),
        ]
    );
}

#[test]
fn padded_tree_equals_tree_over_padded_items() {
    let items = numbered(5);
    let mut padded = items.clone();
    while padded.len() < 8 {
        padded.push(items[4].clone());
    }
    let tree = MerkleTree::new(&byte_items(&items), Sha3Hasher);
    let padded_tree = MerkleTree::new(&byte_items(&padded), Sha3Hasher);
    assert_eq!(tree.root(), padded_tree.root());
    for i in 0..8 {
        assert_eq!(tree.inclusion_proof(i), padded_tree.inclusion_proof(i));
    }
}

#[test]
fn padding_repeats_the_last_item_not_zeroes() {
    let hasher = Sha3Hasher;
    let items = numbered(3);
    let tree = MerkleTree::new(&byte_items(&items), hasher);
    let proof = tree.inclusion_proof(2);
    assert_eq!(proof.path[0], PositionedHash::Right(hasher.hash(b"2")));
    assert!(tree.inclusion_proof(3).validate(b"2", &hasher));
}

#[test]
fn every_leaf_proof_validates_its_item() {
    let hasher = Sha3Hasher;
    for n in 1..=20 {
        let items = numbered(n);
        let tree = MerkleTree::new(&byte_items(&items), hasher);
        let leaf_count = n.next_power_of_two();
        for i in 0..leaf_count {
            let proof = tree.inclusion_proof(i);
            assert_eq!(proof.root, tree.root());
            assert_eq!(proof.path.len(), leaf_count.trailing_zeros() as usize);
            let item = &items[i.min(n - 1)];
            assert!(proof.validate(item.as_bytes(), &hasher), "n = {n}, i = {i}");
        }
    }
}

#[test]
fn sixteen_leaf_proof_has_the_right_siblings() {
    let hasher = Sha3Hasher;
    let items = numbered(16);
    let tree = MerkleTree::new(&byte_items(&items), hasher);
    let h: Vec<_> = items.iter().map(|s| hasher.hash(s.as_bytes())).collect();
    let h45 = hasher.concat_hashes(h[4], h[5]);
    let h67 = hasher.concat_hashes(h[6], h[7]);
    let h01 = hasher.concat_hashes(h[0], h[1]);
    let h23 = hasher.concat_hashes(h[2], h[3]);
    let h03 = hasher.concat_hashes(h01, h23);
    let h47 = hasher.concat_hashes(h45, h67);
    let upper: Vec<_> = (8..16).map(|i| h[i]).collect();
    let u01 = hasher.concat_hashes(upper[0], upper[1]);
    let u23 = hasher.concat_hashes(upper[2], upper[3]);
    let u45 = hasher.concat_hashes(upper[4], upper[5]);
    let u67 = hasher.concat_hashes(upper[6], upper[7]);
    let h8_15 = hasher.concat_hashes(hasher.concat_hashes(u01, u23), hasher.concat_hashes(u45, u67));
    assert_eq!(
        tree.inclusion_proof(6).path,
        vec![
            PositionedHash::Right(h[7]),
            PositionedHash::Left(h45),
            PositionedHash::Left(h03),
            PositionedHash::Right(h8_15),
        ]
    );
    assert_eq!(tree.root(), hasher.concat_hashes(hasher.concat_hashes(h03, h47), h8_15));
}

#[test]
fn validate_rejects_other_items() {
    let hasher = Sha3Hasher;
    let items = numbered(6);
    let tree = MerkleTree::new(&byte_items(&items), hasher);
    for i in 0..6 {
        let proof = tree.inclusion_proof(i);
        for j in 0..6 {
            assert_eq!(proof.validate(items[j].as_bytes(), &hasher), i == j);
        }
        assert!(!proof.validate(b"", &hasher));
    }
}

#[test]
fn validate_rejects_altered_paths() {
    let hasher = Sha3Hasher;
    let items = numbered(8);
    let tree = MerkleTree::new(&byte_items(&items), hasher);
    let proof = tree.inclusion_proof(5);
    assert!(proof.validate(b"5", &hasher));
    for k in 0..proof.path.len() {
        let mut altered = proof.clone();
        altered.path[k] = match altered.path[k] {
            PositionedHash::Left(_) => PositionedHash::Left(hasher.hash(b"x")),
            PositionedHash::Right(_) => PositionedHash::Right(hasher.hash(b"x")),
        };
        assert!(!altered.validate(b"5", &hasher));
        let mut flipped = proof.clone();
        flipped.path[k] = match flipped.path[k] {
            PositionedHash::Left(h) => PositionedHash::Right(h),
            PositionedHash::Right(h) => PositionedHash::Left(h),
        };
        assert!(!flipped.validate(b"5", &hasher));
    }
    let mut other_root = proof.clone();
    other_root.root = hasher.hash(b"root");
    assert!(!other_root.validate(b"5", &hasher));
}

#[test]
fn proof_outlives_its_tree() {
    let hasher = Sha3Hasher;
    let items = numbered(3);
    let proof = {
        let tree = MerkleTree::new(&byte_items(&items), hasher);
        tree.inclusion_proof(1)
    };
    assert!(proof.validate(b"1", &hasher));
}
