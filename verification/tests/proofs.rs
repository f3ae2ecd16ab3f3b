//! The replica side: syncing from the event stream, proof generation
//! against current and historical roots, verification, non-membership,
//! tamper sensitivity, and the error taxonomy.

use blake2::Digest;
use merkle_tree::{MerkleTree, MerkleTreeClient, TreeError};

fn h(data: &[u8]) -> Vec<u8> {
    <blake2::Blake2b<blake2::digest::consts::U32> as Digest>::digest(data).to_vec()
}

fn bytes(s: &str) -> Vec<u8> {
    s.as_bytes().to_vec()
}

fn synced_client(tree: &MerkleTree) -> MerkleTreeClient {
    let mut client = MerkleTreeClient::new();
    client.build_tree_from_events(tree.events());
    client
}

#[test]
fn should_be_able_to_sync_with_client() {
    let mut tree = MerkleTree::new();
    tree.insert(&bytes("a"));
    tree.insert(&bytes("b"));
    tree.insert(&bytes("c"));

    let client = synced_client(&tree);
    assert_eq!(client.root_hash, tree.root_hash());
    assert_eq!(client.n_nodes, tree.n_nodes());
}

#[test]
fn should_be_able_to_create_proof() {
    let mut tree = MerkleTree::new();
    let a = bytes("a");
    tree.insert(&a);
    tree.insert(&bytes("b"));
    tree.insert(&bytes("c"));
    let root = tree.root_hash().unwrap();

    let client = synced_client(&tree);
    let index = client.get_node_index(&a).unwrap();
    assert_eq!(index, 0u128);
    let proof = client.get_proof_for(&a, &root).unwrap();
    assert!(MerkleTree::verify_proof(&proof, &a, index, &root));
}

#[test]
fn should_be_able_to_create_proof_for_previous_states() {
    let mut tree = MerkleTree::new();
    let a = bytes("a");
    let b = bytes("b");
    tree.insert(&a);
    tree.insert(&b);
    let root_after_b = tree.root_hash().unwrap();
    tree.insert(&bytes("c"));
    let root_after_c = tree.root_hash().unwrap();
    tree.insert(&bytes("d"));
    let root_after_d = tree.root_hash().unwrap();

    let client = synced_client(&tree);

    let a_index = client.get_node_index(&a).unwrap();
    for root in [&root_after_b, &root_after_c, &root_after_d] {
        let proof = client.get_proof_for(&a, root).unwrap();
        assert!(MerkleTree::verify_proof(&proof, &a, a_index, root));
    }

    // For b also.
    let b_index = client.get_node_index(&b).unwrap();
    for root in [&root_after_b, &root_after_c, &root_after_d] {
        let proof = client.get_proof_for(&b, root).unwrap();
        assert!(MerkleTree::verify_proof(&proof, &b, b_index, root));
    }
}

#[test]
fn proofs_differ_between_historical_roots() {
    let mut tree = MerkleTree::new();
    let a = bytes("a");
    tree.insert(&a);
    tree.insert(&bytes("b"));
    tree.insert(&bytes("c"));
    let root_after_c = tree.root_hash().unwrap();
    tree.insert(&bytes("d"));
    let root_after_d = tree.root_hash().unwrap();

    let client = synced_client(&tree);
    let index = client.get_node_index(&a).unwrap();
    let proof_c = client.get_proof_for(&a, &root_after_c).unwrap();
    let proof_d = client.get_proof_for(&a, &root_after_d).unwrap();
    assert_ne!(proof_c, proof_d);
    assert!(MerkleTree::verify_proof(&proof_c, &a, index, &root_after_c));
    assert!(MerkleTree::verify_proof(&proof_d, &a, index, &root_after_d));
}

#[test]
fn single_leaf_has_empty_proof() {
    let mut tree = MerkleTree::new();
    let a = bytes("a");
    let root = tree.insert(&a);

    let client = synced_client(&tree);
    let proof = client.get_proof_for(&a, &root).unwrap();
    assert_eq!(proof, vec![]);
    assert!(MerkleTree::verify_proof(&proof, &a, 0u128, &root));
}

#[test]
fn absent_value_yields_proof_not_found() {
    let mut tree = MerkleTree::new();
    tree.insert(&bytes("a"));
    tree.insert(&bytes("b"));
    let root_after_b = tree.root_hash().unwrap();
    tree.insert(&bytes("c"));
    let root_after_c = tree.root_hash().unwrap();

    let client = synced_client(&tree);
    // Never inserted at all.
    assert_eq!(
        client.get_proof_for(&bytes("z"), &root_after_c),
        Err(TreeError::ProofNotFound)
    );
    // Inserted, but only after the target root was produced.
    assert_eq!(
        client.get_proof_for(&bytes("c"), &root_after_b),
        Err(TreeError::ProofNotFound)
    );
}

#[test]
fn first_root_is_snapshotted_like_any_other() {
    // A snapshot is created on every insertion, the very first included:
    // asking for a value that is not under the first root means the value
    // is not included there, not that the root never existed.
    let mut tree = MerkleTree::new();
    let root_after_a = tree.insert(&bytes("a"));
    let client = synced_client(&tree);
    assert_eq!(
        client.get_proof_for(&bytes("b"), &root_after_a),
        Err(TreeError::ProofNotFound)
    );
    // The first leaf itself is still trivially provable: it is the root.
    let proof = client.get_proof_for(&bytes("a"), &root_after_a).unwrap();
    assert_eq!(proof, vec![]);
    assert!(MerkleTree::verify_proof(&proof, &bytes("a"), 0u128, &root_after_a));
}

#[test]
fn unknown_root_yields_snapshot_not_found() {
    let mut tree = MerkleTree::new();
    tree.insert(&bytes("a"));
    tree.insert(&bytes("b"));

    let client = synced_client(&tree);
    let bogus_root = h(b"never produced");
    assert_eq!(
        client.get_proof_for(&bytes("a"), &bogus_root),
        Err(TreeError::SnapshotNotFound)
    );
}

#[test]
fn unknown_value_yields_leaf_unknown() {
    let mut tree = MerkleTree::new();
    tree.insert(&bytes("a"));
    let client = synced_client(&tree);
    assert_eq!(client.get_node_index(&bytes("z")), Err(TreeError::LeafUnknown));
}

#[test]
fn duplicate_value_keeps_most_recent_position() {
    let mut tree = MerkleTree::new();
    let a = bytes("a");
    tree.insert(&a);
    tree.insert(&bytes("b"));
    tree.insert(&a);
    let client = synced_client(&tree);
    assert_eq!(client.get_node_index(&a).unwrap(), 2u128);
}

#[test]
fn newest_leaf_proof_is_the_consumed_frontier() {
    let mut tree = MerkleTree::new();
    tree.insert(&bytes("a"));
    tree.insert(&bytes("b"));
    tree.insert(&bytes("c"));
    let frontier_before = tree.edge_nodes();
    let d = bytes("d");
    tree.insert(&d);
    let root = tree.root_hash().unwrap();

    let client = synced_client(&tree);
    let proof = client.get_proof_for(&d, &root).unwrap();
    // The proof for the just-inserted leaf lists exactly the frontier slots
    // its insertion consumed, level by level.
    assert_eq!(proof, frontier_before);
    let index = client.get_node_index(&d).unwrap();
    assert_eq!(index, 3u128);
    assert!(MerkleTree::verify_proof(&proof, &d, index, &root));
}

#[test]
fn tampered_proof_is_rejected() {
    let mut tree = MerkleTree::new();
    let a = bytes("a");
    tree.insert(&a);
    tree.insert(&bytes("b"));
    tree.insert(&bytes("c"));
    tree.insert(&bytes("d"));
    let root = tree.root_hash().unwrap();

    let client = synced_client(&tree);
    let index = client.get_node_index(&a).unwrap();
    let proof = client.get_proof_for(&a, &root).unwrap();
    assert!(MerkleTree::verify_proof(&proof, &a, index, &root));

    // Flipping any single byte of any proof entry breaks verification.
    for entry in 0..proof.len() {
        if let Some(sibling) = &proof[entry] {
            for position in 0..sibling.len() {
                let mut tampered = proof.clone();
                let mut corrupted = sibling.clone();
                corrupted[position] ^= 0x01;
                tampered[entry] = Some(corrupted);
                assert!(!MerkleTree::verify_proof(&tampered, &a, index, &root));
            }
        }
    }

    // The wrong leaf position breaks verification too.
    assert!(!MerkleTree::verify_proof(&proof, &a, index + 1, &root));
    // So does the wrong root.
    let wrong_root = h(b"wrong root");
    assert!(!MerkleTree::verify_proof(&proof, &a, index, &wrong_root));
}
