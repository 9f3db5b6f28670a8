//! Sparse Merkle tree construction, membership proofs, and tampering.
use circuits_rust::field::{fe_eq, fe_from_u64, fe_zero};
use circuits_rust::merkle_tree::{MerkleError, PathVar, SparseMerkleTree};
use circuits_rust::poseidon::PoseidonHash;

fn leaves(n: u64) -> Vec<circuits_rust::field::Fe> {
    (1..=n).map(|i| fe_from_u64(100 + i)).collect()
}

#[test]
fn membership_proofs_verify_for_every_slot() {
    let hasher = PoseidonHash::new();
    let z = fe_zero();
    let ls = leaves(5);
    let tree = SparseMerkleTree::new_sequential(&ls, &hasher, &z, 4).expect("tree");
    let root = tree.root();
    for i in 0..5u64 {
        let proof = tree.generate_membership_proof(i);
        let ok = proof
            .check_membership(&root, &ls[i as usize], &hasher)
            .expect("path is internally consistent");
        assert!(ok, "leaf {} must be a member", i);
        // index reconstruction recovers the slot
        let idx = proof.get_index(&root, &ls[i as usize], &hasher).expect("member");
        assert!(fe_eq(&idx, &fe_from_u64(i)));
    }
}

#[test]
fn unpopulated_slot_still_carries_its_default() {
    let hasher = PoseidonHash::new();
    let z = fe_zero();
    let ls = leaves(2);
    let tree = SparseMerkleTree::new_sequential(&ls, &hasher, &z, 4).expect("tree");
    let root = tree.root();
    // slot 7 is unpopulated: its value is the empty leaf
    let proof = tree.generate_membership_proof(7);
    let ok = proof.check_membership(&root, &z, &hasher).expect("consistent");
    assert!(ok);
}

#[test]
fn tampered_sibling_is_rejected() {
    let hasher = PoseidonHash::new();
    let z = fe_zero();
    let ls = leaves(4);
    let tree = SparseMerkleTree::new_sequential(&ls, &hasher, &z, 4).expect("tree");
    let root = tree.root();
    let mut proof = tree.generate_membership_proof(2);
    assert!(proof.check_membership(&root, &ls[2], &hasher).expect("consistent"));
    // alter a single sibling above the leaf level
    let (l, _r) = proof.path[1];
    proof.path[1] = (l, fe_from_u64(999_999));
    match proof.check_membership(&root, &ls[2], &hasher) {
        Ok(ok) => assert!(!ok, "tampered path must not reach the root"),
        Err(e) => assert!(e == MerkleError::InvalidLeaf || e == MerkleError::InvalidPath),
    }
}

#[test]
fn blend_walk_agrees_with_branching_walk() {
    let hasher = PoseidonHash::new();
    let z = fe_zero();
    let ls = leaves(3);
    let tree = SparseMerkleTree::new_sequential(&ls, &hasher, &z, 3).expect("tree");
    let root = tree.root();
    let proof = tree.generate_membership_proof(1);
    let var = PathVar::from_path(&proof);
    assert!(var.check_membership(&root, &ls[1], &hasher));
    let blended = var.root_hash(&ls[1], &hasher);
    assert!(fe_eq(&blended, &root));
    let idx = var.get_index(&ls[1], &hasher);
    assert!(fe_eq(&idx, &fe_from_u64(1)));
}

#[test]
fn capacity_and_range_errors() {
    let hasher = PoseidonHash::new();
    let z = fe_zero();
    // three leaves cannot fit a height-one tree
    let ls = leaves(3);
    assert!(matches!(
        SparseMerkleTree::new_sequential(&ls, &hasher, &z, 1),
        Err(MerkleError::Capacity)
    ));
    // a sparse index beyond the bottom level is refused
    let batch = vec![(4u32, fe_from_u64(5))];
    assert!(matches!(
        SparseMerkleTree::new(&batch, &hasher, &z, 2),
        Err(MerkleError::IndexOutOfRange)
    ));
}

#[test]
fn empty_tree_root_is_topmost_default() {
    let hasher = PoseidonHash::new();
    let z = fe_zero();
    let empty: Vec<circuits_rust::field::Fe> = vec![];
    let tree = SparseMerkleTree::new_sequential(&empty, &hasher, &z, 3).expect("tree");
    let root = tree.root();
    // the cached defaults are z, H(z,z), H(H(z,z),H(z,z)); the root of an
    // empty tree is the topmost of them
    let e1 = hasher.hash(&z, &z);
    let e2 = hasher.hash(&e1, &e1);
    assert!(fe_eq(&root, &e2));
}

#[test]
fn insert_batch_updates_an_existing_tree() {
    let hasher = PoseidonHash::new();
    let z = fe_zero();
    let ls = leaves(2);
    let mut tree = SparseMerkleTree::new_sequential(&ls, &hasher, &z, 3).expect("tree");
    let root_before = tree.root();
    tree.insert_batch(&vec![(2u32, fe_from_u64(777))], &hasher);
    let root_after = tree.root();
    assert!(!fe_eq(&root_before, &root_after));
    let proof = tree.generate_membership_proof(2);
    assert!(proof
        .check_membership(&root_after, &fe_from_u64(777), &hasher)
        .expect("consistent"));
}
