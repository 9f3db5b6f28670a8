//! The balance-update relation end to end: the fresh-account scenario, a
//! follow-up update through the advanced tree, and every rejection rule.
use circuits_rust::circuit::MainCircuit;
use circuits_rust::field::{fe_add, fe_bytes, fe_eq, fe_from_u64, fe_is_zero, fe_zero};
use circuits_rust::poseidon::PoseidonHash;
use circuits_rust::wasm::{prove, Account, ProveError, State};

const ADDR_HEX: &str = "00112233445566778899aabbccddeeff00112233";
const NONCE_HEX: &str = "0badcafe";

fn fresh_state() -> State {
    let account = Account::wasm_new(ADDR_HEX.to_string(), NONCE_HEX.to_string());
    State::wasm_new(account)
}

fn be_hex(f: &circuits_rust::field::Fe) -> String {
    let mut b = fe_bytes(f);
    b.reverse();
    hex::encode(b)
}

#[test]
fn fresh_account_scenario_accepts() {
    // empty tree, height 20, balances [0,0,0,0,0], delta [10,0,0,0,0]
    let state = fresh_state();
    let hasher = PoseidonHash::new();
    let out = prove(&state, &vec![10, 0, 0, 0, 0], false, &fe_zero(), &hasher).expect("accepted");
    // nullifier = 0 and the fresh-account branch taken
    assert!(fe_is_zero(&out.circuit.nullifier));
    assert!(fe_eq(&out.circuit.after[0], &fe_from_u64(10)));
    assert!(out.circuit.is_satisfied(&hasher));
    // public inputs stand in their fixed order
    assert_eq!(out.public_inputs.len(), 6);
    assert!(fe_eq(&out.public_inputs[0], &out.circuit.merkle_root));
    assert!(fe_eq(&out.public_inputs[1], &out.circuit.diff_hash));
    assert!(fe_eq(&out.public_inputs[2], &out.circuit.nullifier));
    assert!(fe_eq(&out.public_inputs[3], &out.circuit.after_leaf));
    assert!(fe_eq(&out.public_inputs[4], &out.circuit.public_address));
    assert!(fe_eq(&out.public_inputs[5], &out.circuit.aux));
    assert_eq!(out.public_inputs_bytes.len(), 6 * 32);
    assert_eq!(&out.public_inputs_bytes[..32], fe_bytes(&out.circuit.merkle_root).as_slice());
    assert_eq!(&out.public_inputs_bytes[160..], fe_bytes(&out.circuit.aux).as_slice());
    // the successor-state nullifier is the hash of the after-leaf and nonce
    let expected = hasher.hash(&out.circuit.after_leaf, &state.account.nonce);
    assert!(fe_eq(&out.after_nullifier, &expected));
    // over an empty leaf set the committed root is the topmost cached
    // default: the empty leaf self-hashed height - 1 times
    let mut d = fe_zero();
    for _ in 0..19 {
        d = hasher.hash(&d, &d);
    }
    assert!(fe_eq(&out.circuit.merkle_root, &d));
}

#[test]
fn follow_up_update_through_advanced_tree_accepts() {
    let hasher = PoseidonHash::new();
    // first update: fresh account, +10 on asset 0
    let state1 = fresh_state();
    let out1 = prove(&state1, &vec![10, 0, 0, 0, 0], false, &fe_zero(), &hasher).expect("fresh");
    // the account's new leaf enters the tree at slot 0
    let mut state2 = fresh_state();
    state2.account.wasm_set_balance(0, 10);
    state2.account.wasm_set_index(0);
    state2.wasm_set_leafs(&vec![be_hex(&out1.circuit.after_leaf)]);
    let out2 = prove(&state2, &vec![5, 0, 0, 0, 0], false, &fe_zero(), &hasher).expect("member");
    // existing-account branch: a nonzero deterministic nullifier
    assert!(!fe_is_zero(&out2.circuit.nullifier));
    assert!(fe_eq(&out2.circuit.after[0], &fe_from_u64(15)));
    // the before-leaf of the second update is the after-leaf of the first
    assert!(fe_eq(&out2.before_leaf, &out1.circuit.after_leaf));
}

#[test]
fn stale_path_and_nullifier_are_rejected() {
    let hasher = PoseidonHash::new();
    let state1 = fresh_state();
    let out1 = prove(&state1, &vec![10, 0, 0, 0, 0], false, &fe_zero(), &hasher).expect("fresh");
    let mut state2 = fresh_state();
    state2.account.wasm_set_balance(0, 10);
    state2.account.wasm_set_index(0);
    state2.wasm_set_leafs(&vec![be_hex(&out1.circuit.after_leaf)]);
    let out2 = prove(&state2, &vec![5, 0, 0, 0, 0], false, &fe_zero(), &hasher).expect("member");
    // replay the first proof's path and nullifier against the advanced root
    let mut replay: MainCircuit = out2.circuit.clone();
    replay.merkle_path = out1.circuit.merkle_path.clone();
    replay.nullifier = out1.circuit.nullifier;
    assert!(!replay.is_satisfied(&hasher));
}

#[test]
fn additive_identity_is_enforced() {
    let hasher = PoseidonHash::new();
    let state = fresh_state();
    let out = prove(&state, &vec![10, 0, 0, 0, 0], false, &fe_zero(), &hasher).expect("accepted");
    let mut bad = out.circuit.clone();
    bad.after[0] = fe_add(&bad.after[0], &fe_from_u64(1));
    assert!(!bad.is_satisfied(&hasher));
}

#[test]
fn half_range_overflow_is_rejected() {
    let hasher = PoseidonHash::new();
    let state = fresh_state();
    // a negative delta on a zero balance wraps into the negative half
    match prove(&state, &vec![-1, 0, 0, 0, 0], false, &fe_zero(), &hasher) {
        Err(ProveError::Unsatisfied) => {},
        other => panic!("expected an unsatisfied witness, got {:?}", other.is_ok()),
    }
}

#[test]
fn disclosure_toggle_is_exact() {
    let hasher = PoseidonHash::new();
    let state = fresh_state();
    // public: the address itself is accepted
    let out_pub = prove(&state, &vec![1, 0, 0, 0, 0], true, &fe_zero(), &hasher).expect("public");
    assert!(fe_eq(&out_pub.circuit.public_address, &out_pub.circuit.address));
    // private: zero is accepted
    let out_priv = prove(&state, &vec![1, 0, 0, 0, 0], false, &fe_zero(), &hasher).expect("private");
    assert!(fe_is_zero(&out_priv.circuit.public_address));
    // any other value is rejected
    let mut bad = out_priv.circuit.clone();
    bad.public_address = fe_from_u64(424242);
    assert!(!bad.is_satisfied(&hasher));
}

#[test]
fn diff_length_mismatch_is_refused() {
    let hasher = PoseidonHash::new();
    let state = fresh_state();
    match prove(&state, &vec![1, 2], false, &fe_zero(), &hasher) {
        Err(ProveError::DiffLength) => {},
        _ => panic!("expected a length error"),
    }
}

#[test]
fn tampered_delta_commitment_is_rejected() {
    let hasher = PoseidonHash::new();
    let state = fresh_state();
    let out = prove(&state, &vec![3, 0, 0, 0, 0], false, &fe_zero(), &hasher).expect("accepted");
    let mut bad = out.circuit.clone();
    bad.diff_hash = fe_from_u64(1);
    assert!(!bad.is_satisfied(&hasher));
}

#[test]
fn empty_circuit_shape() {
    let hasher = PoseidonHash::new();
    let c = MainCircuit::empty(hasher, 20, 5);
    assert_eq!(c.before.len(), 5);
    assert_eq!(c.merkle_path.path.len(), 20);
    // the all-zero witness does not satisfy the relation: its public
    // after-leaf does not match the computed chain
    assert!(!c.is_satisfied(&hasher));
}

#[test]
fn member_at_nonzero_slot_accepts() {
    let hasher = PoseidonHash::new();
    let mut state = fresh_state();
    state.account.wasm_set_balance(0, 7);
    state.account.wasm_set_index(1);
    // the account's current leaf: the chain over its balances, seeded at
    // the address/nonce prehash
    let prehash = hasher.hash(&state.account.address_fr, &state.account.nonce);
    let mut leaf = prehash;
    for b in state.account.wasm_get_balances() {
        leaf = hasher.hash(&leaf, &fe_from_u64(b));
    }
    // slot 0 holds someone else's leaf, slot 1 holds ours
    state.wasm_set_leafs(&vec![be_hex(&fe_from_u64(123456)), be_hex(&leaf)]);
    let out = prove(&state, &vec![0, 2, 0, 0, 0], false, &fe_zero(), &hasher).expect("member");
    assert!(fe_eq(&out.before_leaf, &leaf));
    assert!(!fe_is_zero(&out.circuit.nullifier));
}

#[test]
fn aux_value_rides_along() {
    let hasher = PoseidonHash::new();
    let state = fresh_state();
    let aux = fe_from_u64(99);
    let out = prove(&state, &vec![1, 0, 0, 0, 0], false, &aux, &hasher).expect("accepted");
    assert!(fe_eq(&out.public_inputs[5], &aux));
    assert_eq!(&out.public_inputs_bytes[160..], fe_bytes(&aux).as_slice());
}

#[test]
fn spending_update_accepts() {
    let hasher = PoseidonHash::new();
    let mut state = fresh_state();
    state.account.wasm_set_balance(0, 10);
    state.account.wasm_set_index(0);
    let prehash = hasher.hash(&state.account.address_fr, &state.account.nonce);
    let mut leaf = prehash;
    for b in state.account.wasm_get_balances() {
        leaf = hasher.hash(&leaf, &fe_from_u64(b));
    }
    state.wasm_set_leafs(&vec![be_hex(&leaf)]);
    // spending within the balance: a negative delta is accepted
    let out = prove(&state, &vec![-4, 0, 0, 0, 0], false, &fe_zero(), &hasher).expect("spend");
    assert!(fe_eq(&out.circuit.after[0], &fe_from_u64(6)));
    // overspending wraps into the negative half and is rejected
    match prove(&state, &vec![-11, 0, 0, 0, 0], false, &fe_zero(), &hasher) {
        Err(ProveError::Unsatisfied) => {},
        _ => panic!("overspending must not prove"),
    }
}
