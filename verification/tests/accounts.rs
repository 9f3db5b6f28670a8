//! Account and state bookkeeping at the host boundary.
use circuits_rust::field::{fe_bytes, fe_eq, fe_from_u64};
use circuits_rust::wasm::{Account, State};

fn account() -> Account {
    Account::wasm_new("aa".to_string(), "0102".to_string())
}

#[test]
fn new_account_is_blank() {
    let a = account();
    assert_eq!(a.wasm_get_balances(), vec![0, 0, 0, 0, 0]);
    assert_eq!(a.wasm_get_index(), None);
}

#[test]
fn balances_and_index_update() {
    let mut a = account();
    a.wasm_set_balance(2, 77);
    assert_eq!(a.wasm_get_balance(2), 77);
    assert_eq!(a.wasm_get_balances(), vec![0, 0, 77, 0, 0]);
    a.wasm_set_index(9);
    assert_eq!(a.wasm_get_index(), Some(9));
}

#[test]
fn leaf_lists_round_trip_through_hex() {
    let mut s = State::wasm_new(account());
    assert_eq!(s.wasm_get_leafs_length(), 0);
    let l1 = fe_from_u64(0x0102);
    let l2 = fe_from_u64(7);
    let to_hex = |f: &circuits_rust::field::Fe| {
        let mut b = fe_bytes(f);
        b.reverse();
        hex::encode(b)
    };
    s.wasm_set_leafs(&vec![to_hex(&l1)]);
    s.wasm_add_leafs(&vec![to_hex(&l2)]);
    assert_eq!(s.wasm_get_leafs_length(), 2);
    assert!(fe_eq(&s.merkle_leafs[0], &l1));
    assert!(fe_eq(&s.merkle_leafs[1], &l2));
    // the exported list re-imports to the same leaves
    let exported = s.wasm_get_leafs();
    assert_eq!(exported[1], format!("{:064}", 7));
    let mut s2 = State::wasm_new(account());
    s2.wasm_set_leafs(&exported);
    assert!(fe_eq(&s2.merkle_leafs[0], &l1));
    assert!(fe_eq(&s2.merkle_leafs[1], &l2));
}

#[test]
fn export_import_round_trip() {
    let mut a = account();
    a.wasm_set_balance(1, 42);
    a.wasm_set_index(3);
    let data = a.wasm_export();
    let b = Account::wasm_import(&data).expect("round trip");
    assert_eq!(b.wasm_get_balances(), a.wasm_get_balances());
    assert_eq!(b.wasm_get_index(), Some(3));
    assert!(fe_eq(&b.nonce, &a.nonce));
    assert!(fe_eq(&b.address_fr, &a.address_fr));
    // an account without a tree slot round-trips too
    let c = account();
    let d = Account::wasm_import(&c.wasm_export()).expect("round trip");
    assert_eq!(d.wasm_get_index(), None);
    // truncated data is refused
    assert!(Account::wasm_import(&vec![1, 2, 3]).is_none());
    // a corrupted slot tag is refused
    let mut data2 = a.wasm_export();
    let n = data2.len();
    data2[n - 9] = 7;
    assert!(Account::wasm_import(&data2).is_none());
}
