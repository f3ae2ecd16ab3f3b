//! The accumulator side: initial state, the insertion scenario over the
//! leaves "a".."i", event emission, and determinism.

use blake2::Digest;
use merkle_tree::MerkleTree;

fn h(data: &[u8]) -> Vec<u8> {
    <blake2::Blake2b<blake2::digest::consts::U32> as Digest>::digest(data).to_vec()
}

fn hp(left: &[u8], right: &[u8]) -> Vec<u8> {
    let mut joined: Vec<u8> = left.to_vec();
    joined.extend_from_slice(right);
    h(&joined)
}

fn bytes(s: &str) -> Vec<u8> {
    s.as_bytes().to_vec()
}

#[test]
fn should_be_able_to_get_correct_initial_values() {
    let tree = MerkleTree::new();
    assert_eq!(tree.root_hash(), None);
    assert_eq!(tree.n_nodes(), 0u128);
    assert_eq!(tree.edge_nodes(), vec![]);
}

#[test]
fn should_be_able_to_correctly_insert_values() {
    let mut tree = MerkleTree::new();

    // a
    let a = bytes("a");
    let a_hash = h(&a);
    let returned = tree.insert(&a);
    assert_eq!(returned, a_hash);
    assert_eq!(tree.root_hash(), Some(a_hash.clone()));
    assert_eq!(tree.edge_nodes(), vec![Some(a_hash.clone())]);

    // b
    let b = bytes("b");
    let b_hash = h(&b);
    let ab_hash = hp(&a_hash, &b_hash);
    tree.insert(&b);
    assert_eq!(tree.root_hash(), Some(ab_hash.clone()));
    assert_eq!(tree.edge_nodes(), vec![None, Some(ab_hash.clone())]);

    // c
    let c = bytes("c");
    let c_hash = h(&c);
    let c1_hash = h(&c_hash);
    let abc1_hash = hp(&ab_hash, &c1_hash);
    tree.insert(&c);
    assert_eq!(tree.root_hash(), Some(abc1_hash.clone()));
    assert_eq!(tree.edge_nodes(), vec![Some(c_hash.clone()), Some(ab_hash.clone())]);

    // d
    let d = bytes("d");
    let d_hash = h(&d);
    let cd_hash = hp(&c_hash, &d_hash);
    let abcd_hash = hp(&ab_hash, &cd_hash);
    tree.insert(&d);
    assert_eq!(tree.root_hash(), Some(abcd_hash.clone()));
    assert_eq!(tree.edge_nodes(), vec![None, None, Some(abcd_hash.clone())]);

    // e
    let e = bytes("e");
    let e_hash = h(&e);
    let e1_hash = h(&e_hash);
    let e2_hash = h(&e1_hash);
    let abcde2_hash = hp(&abcd_hash, &e2_hash);
    tree.insert(&e);
    assert_eq!(tree.root_hash(), Some(abcde2_hash.clone()));
    assert_eq!(
        tree.edge_nodes(),
        vec![Some(e_hash.clone()), None, Some(abcd_hash.clone())]
    );

    // f
    let f = bytes("f");
    let f_hash = h(&f);
    let ef_hash = hp(&e_hash, &f_hash);
    let ef1_hash = h(&ef_hash);
    let abcdef1_hash = hp(&abcd_hash, &ef1_hash);
    tree.insert(&f);
    assert_eq!(tree.root_hash(), Some(abcdef1_hash.clone()));
    assert_eq!(
        tree.edge_nodes(),
        vec![None, Some(ef_hash.clone()), Some(abcd_hash.clone())]
    );

    // g
    let g = bytes("g");
    let g_hash = h(&g);
    let g1_hash = h(&g_hash);
    let efg1_hash = hp(&ef_hash, &g1_hash);
    let abcdefg1_hash = hp(&abcd_hash, &efg1_hash);
    tree.insert(&g);
    assert_eq!(tree.root_hash(), Some(abcdefg1_hash.clone()));
    assert_eq!(
        tree.edge_nodes(),
        vec![
            Some(g_hash.clone()),
            Some(ef_hash.clone()),
            Some(abcd_hash.clone())
        ]
    );

    // h
    let hh = bytes("h");
    let h_hash = h(&hh);
    let gh_hash = hp(&g_hash, &h_hash);
    let efgh_hash = hp(&ef_hash, &gh_hash);
    let abcdefgh_hash = hp(&abcd_hash, &efgh_hash);
    tree.insert(&hh);
    assert_eq!(tree.root_hash(), Some(abcdefgh_hash.clone()));
    // A perfect binary tree of eight leaves: exactly one occupied frontier
    // slot, at the highest index.
    assert_eq!(
        tree.edge_nodes(),
        vec![None, None, None, Some(abcdefgh_hash.clone())]
    );

    // i
    let i = bytes("i");
    let i_hash = h(&i);
    let i1_hash = h(&i_hash);
    let i2_hash = h(&i1_hash);
    let i3_hash = h(&i2_hash);
    let abcdefghi3_hash = hp(&abcdefgh_hash, &i3_hash);
    tree.insert(&i);
    assert_eq!(tree.root_hash(), Some(abcdefghi3_hash.clone()));
    assert_eq!(
        tree.edge_nodes(),
        vec![Some(i_hash.clone()), None, None, Some(abcdefgh_hash.clone())]
    );
}

#[test]
fn should_be_able_to_get_emitted_event() {
    let mut tree = MerkleTree::new();
    let a = bytes("a");
    let a_hash = h(&a);
    let returned = tree.insert(&a);
    assert_eq!(returned, a_hash);
    assert_eq!(tree.events(), vec![a_hash]);
}

#[test]
fn root_is_the_digest_of_a_single_leaf() {
    // With one leaf the root is the leaf's digest itself: the accumulator's
    // hashing really is the 256-bit digest of the input bytes, not the
    // input handed back.
    let mut tree = MerkleTree::new();
    let a = bytes("a");
    let root = tree.insert(&a);
    assert_eq!(root, h(&a));
    assert_ne!(root, a);
    assert_eq!(root.len(), 32);
}

#[test]
fn empty_value_is_accepted_and_hashed() {
    let mut tree = MerkleTree::new();
    let empty: Vec<u8> = vec![];
    let root = tree.insert(&empty);
    assert_eq!(root, h(&[]));
    assert_eq!(tree.n_nodes(), 1u128);
}

#[test]
fn insertion_is_deterministic() {
    let values = ["x", "y", "z", "w", "v"];
    let mut first = MerkleTree::new();
    let mut second = MerkleTree::new();
    for v in values.iter() {
        let r1 = first.insert(&bytes(v));
        let r2 = second.insert(&bytes(v));
        assert_eq!(r1, r2);
        assert_eq!(first.edge_nodes(), second.edge_nodes());
    }
    assert_eq!(first.root_hash(), second.root_hash());
    assert_eq!(first.n_nodes(), second.n_nodes());
}
