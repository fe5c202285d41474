use prover::inclusion::generate_merkle_proof;
use prover::tree::build_merkle_tree;
use prover::tree::Database;
use prover::tree::MerkleNode;

fn sha_hex(data: &str) -> String {
    let mut hasher = <sha2::Sha256 as sha2::Digest>::new();
    sha2::Digest::update(&mut hasher, data);
    hex::encode(sha2::Digest::finalize(hasher))
}

fn node_digest(node: &MerkleNode) -> &str {
    match node {
        MerkleNode::Leaf { hash } => hash,
        MerkleNode::Internal { hash, .. } => hash,
    }
}

#[test]
fn database_new_keeps_records() {
    let records = vec!["item1".to_string(), "item2".to_string()];
    let db = Database::new(records.clone());
    assert_eq!(db.data, records);
}

#[test]
fn build_is_deterministic() {
    let records = vec![
        "alpha".to_string(),
        "beta".to_string(),
        "gamma".to_string(),
        "delta".to_string(),
        "epsilon".to_string(),
    ];
    let t1 = build_merkle_tree(&records);
    let t2 = build_merkle_tree(&records);
    let d1 = node_digest(t1.root.as_ref().expect("tree should have a root"));
    let d2 = node_digest(t2.root.as_ref().expect("tree should have a root"));
    assert_eq!(d1, d2);
}

#[test]
fn single_leaf_root_is_record_digest() {
    let records = vec!["solo".to_string()];
    let tree = build_merkle_tree(&records);
    let root = tree.root.as_ref().expect("tree should have a root");
    assert_eq!(node_digest(root), sha_hex("solo"));
    match root.as_ref() {
        MerkleNode::Leaf { .. } => {}
        MerkleNode::Internal { .. } => panic!("single record must give a leaf root"),
    }
}

#[test]
fn internal_digest_combines_children_once() {
    let records = vec!["a".to_string(), "b".to_string()];
    let tree = build_merkle_tree(&records);
    let root = tree.root.as_ref().expect("tree should have a root");
    match root.as_ref() {
        MerkleNode::Internal { hash, left, right } => {
            assert_eq!(node_digest(left), sha_hex("a"));
            assert_eq!(node_digest(right), sha_hex("b"));
            let concatenated = format!("{}{}", node_digest(left), node_digest(right));
            assert_eq!(hash, &sha_hex(&concatenated));
        }
        MerkleNode::Leaf { .. } => panic!("two records must give an internal root"),
    }
}

#[test]
fn odd_split_puts_extra_record_on_the_right() {
    let records = vec![
        "item1".to_string(),
        "item2".to_string(),
        "item3".to_string(),
    ];
    let tree = build_merkle_tree(&records);
    let root = tree.root.as_ref().expect("tree should have a root");
    match root.as_ref() {
        MerkleNode::Internal { left, right, .. } => {
            match left.as_ref() {
                MerkleNode::Leaf { hash } => assert_eq!(hash, &sha_hex("item1")),
                MerkleNode::Internal { .. } => {
                    panic!("left half of three records is the single first record")
                }
            }
            match right.as_ref() {
                MerkleNode::Internal { left: rl, right: rr, .. } => {
                    assert_eq!(node_digest(rl), sha_hex("item2"));
                    assert_eq!(node_digest(rr), sha_hex("item3"));
                }
                MerkleNode::Leaf { .. } => {
                    panic!("right half of three records holds two leaves")
                }
            }
        }
        MerkleNode::Leaf { .. } => panic!("three records must give an internal root"),
    }
}

#[test]
fn proof_exists_for_present_records() {
    let records = vec![
        "one".to_string(),
        "two".to_string(),
        "three".to_string(),
        "four".to_string(),
    ];
    let tree = build_merkle_tree(&records);
    for record in &records {
        let proof = generate_merkle_proof(&tree, record);
        let proof = proof.expect("every present record has a proof");
        assert!(!proof.is_empty());
    }
}

#[test]
fn absent_record_has_no_proof() {
    let records = vec!["one".to_string(), "two".to_string()];
    let tree = build_merkle_tree(&records);
    assert_eq!(generate_merkle_proof(&tree, "three"), None);
}

#[test]
fn single_leaf_proof_is_empty() {
    let records = vec!["solo".to_string()];
    let tree = build_merkle_tree(&records);
    let proof = generate_merkle_proof(&tree, "solo").expect("the one record is present");
    assert!(proof.is_empty());
}

#[test]
fn empty_input_gives_empty_tree_and_no_proof() {
    let records: Vec<String> = Vec::new();
    let tree = build_merkle_tree(&records);
    assert!(tree.root.is_none());
    assert_eq!(generate_merkle_proof(&tree, "anything"), None);
}

#[test]
fn proof_recomputes_root_end_to_end() {
    let records = vec![
        "item1".to_string(),
        "item2".to_string(),
        "item3".to_string(),
    ];
    let tree = build_merkle_tree(&records);
    let root = tree.root.as_ref().expect("tree should have a root");

    // Left half is ["item1"], right half is ["item2", "item3"]: the leaf for
    // "item1" sits directly under the root, so its proof holds exactly one
    // sibling, the digest of the subtree over "item2" and "item3".
    let sibling = sha_hex(&format!("{}{}", sha_hex("item2"), sha_hex("item3")));
    let proof = generate_merkle_proof(&tree, "item1").expect("item1 is present");
    assert_eq!(proof, vec![sibling.clone()]);

    // Combining the leaf digest with the sibling in tree order reproduces
    // the root digest.
    let recomputed = sha_hex(&format!("{}{}", sha_hex("item1"), sibling));
    assert_eq!(node_digest(root), recomputed);
}

#[test]
fn proof_for_deep_leaf_lists_siblings_leaf_first() {
    let records = vec![
        "item1".to_string(),
        "item2".to_string(),
        "item3".to_string(),
    ];
    let tree = build_merkle_tree(&records);
    let root = tree.root.as_ref().expect("tree should have a root");

    // The leaf for "item3" sits two levels down on the right: its proof is
    // its immediate sibling first, then the sibling at the root's level.
    let proof = generate_merkle_proof(&tree, "item3").expect("item3 is present");
    assert_eq!(proof, vec![sha_hex("item2"), sha_hex("item1")]);

    // Recompute the root: "item3" combines on the right of its sibling at
    // each of the two levels.
    let level1 = sha_hex(&format!("{}{}", proof[0], sha_hex("item3")));
    let recomputed = sha_hex(&format!("{}{}", proof[1], level1));
    assert_eq!(node_digest(root), recomputed);
}

#[test]
fn proof_generation_is_idempotent() {
    let records = vec![
        "w".to_string(),
        "x".to_string(),
        "y".to_string(),
        "z".to_string(),
    ];
    let tree = build_merkle_tree(&records);
    let first = generate_merkle_proof(&tree, "y");
    let second = generate_merkle_proof(&tree, "y");
    let third = generate_merkle_proof(&tree, "y");
    assert!(first.is_some());
    assert_eq!(first, second);
    assert_eq!(second, third);
}
