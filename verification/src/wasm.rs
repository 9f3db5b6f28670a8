//! Account and ledger-view state, and the derivation of a full witness for
//! one balance update.
//!
//! `prove` carries out every computation of a state transition that can be
//! checked locally: it derives the witness, evaluates the relation on it,
//! and serializes the public inputs in their fixed order.  Handing the
//! witness to the SNARK backend for proof generation is left to the
//! orchestration layer outside this crate.
use vstd::prelude::*;

use crate::{ASSET_SIZE, LEVEL};
use crate::circuit::{MainCircuit, chain_hash};
use crate::encoding::{valid_hex, spec_hex_decode, is_hex_of, hex_decode, hex_encode};
use crate::field::{
    Fe, fe_wf, le_val, be_val, fr_modulus, zero32, enc64, fe_zero, fe_from_u64, fe_from_i64,
    fe_add, fe_from_be_bytes, fe_bytes,
};
use crate::merkle_tree::{
    SparseMerkleTree, node_value, spec_calc_root, spec_defaults, spec_subtree_root,
    lemma_dense_tree_root,
};
use crate::poseidon::{PoseidonHash, hash_chain, hash_of};
use vstd::arithmetic::power2::pow2;
use vstd::bytes::{
    lemma_auto_spec_u64_to_from_le_bytes, spec_u64_from_le_bytes, spec_u64_to_le_bytes,
    u64_from_le_bytes, u64_to_le_bytes,
};
use vstd::slice::slice_subrange;

verus! {

/// An account: per-asset balances, a nonce, an address, and the tree slot
/// the account occupies once placed.
#[derive(Clone, Debug)]
pub struct Account {
    pub balance: Vec<u64>,
    pub nonce: Fe,
    pub address_fr: Fe,
    pub latest_seq_sync: u64,
    pub index: Option<usize>,
}

impl Account {
    /// Reduced encodings and the fixed balance-vector length.
    pub open spec fn wf(&self) -> bool {
        &&& fe_wf(self.nonce@)
        &&& fe_wf(self.address_fr@)
        &&& self.balance@.len() == ASSET_SIZE
    }

    /// A fresh account from hex-encoded address and nonce, with all-zero
    /// balances and no tree slot.
    pub fn wasm_new(address_hex: String, nonce_bytes: String) -> (r: Account)
        requires
            valid_hex(address_hex@),
            valid_hex(nonce_bytes@),
        ensures
            r.wf(),
            forall|i: int| 0 <= i < ASSET_SIZE ==> (#[trigger] r.balance@[i]) == 0,
            le_val(r.nonce@) == be_val(spec_hex_decode(nonce_bytes@)) % fr_modulus(),
            le_val(r.address_fr@) == be_val(spec_hex_decode(address_hex@)) % fr_modulus(),
            r.latest_seq_sync == 0,
            r.index is None,
    {
        let nonce_raw = match hex_decode(&nonce_bytes) {
            Some(v) => v,
            None => {
                proof {
                    assert(false);
                }
                Vec::new()
            },
        };
        let address_raw = match hex_decode(&address_hex) {
            Some(v) => v,
            None => {
                proof {
                    assert(false);
                }
                Vec::new()
            },
        };
        let mut balance: Vec<u64> = Vec::new();
        let mut i: usize = 0;
        while i < ASSET_SIZE
            invariant
                0 <= i <= ASSET_SIZE,
                balance@.len() == i,
                forall|k: int| 0 <= k < i ==> (#[trigger] balance@[k]) == 0,
            decreases ASSET_SIZE - i,
        {
            balance.push(0);
            i = i + 1;
        }
        Account {
            balance,
            nonce: fe_from_be_bytes(&nonce_raw),
            address_fr: fe_from_be_bytes(&address_raw),
            latest_seq_sync: 0,
            index: None,
        }
    }

    /// The balance of one asset.
    pub fn wasm_get_balance(&self, asset_id: u64) -> (r: u64)
        requires
            asset_id < self.balance@.len(),
        ensures
            r == self.balance@[asset_id as int],
    {
        let n = self.balance.len();
        proof {
            assert(asset_id < n);
        }
        self.balance[asset_id as usize]
    }

    /// All balances, in asset order.
    pub fn wasm_get_balances(&self) -> (r: Vec<u64>)
        ensures
            r@ == self.balance@,
    {
        let mut out: Vec<u64> = Vec::new();
        let mut i: usize = 0;
        while i < self.balance.len()
            invariant
                0 <= i <= self.balance@.len(),
                out@ =~= self.balance@.subrange(0, i as int),
            decreases self.balance@.len() - i,
        {
            out.push(self.balance[i]);
            i = i + 1;
        }
        proof {
            assert(self.balance@.subrange(0, self.balance@.len() as int) =~= self.balance@);
        }
        out
    }

    /// Overwrites the balance of one asset.
    pub fn wasm_set_balance(&mut self, asset_id: u64, balance: u64)
        requires
            asset_id < old(self).balance@.len(),
        ensures
            final(self).balance@ == old(self).balance@.update(asset_id as int, balance),
            final(self).nonce == old(self).nonce,
            final(self).address_fr == old(self).address_fr,
            final(self).latest_seq_sync == old(self).latest_seq_sync,
            final(self).index == old(self).index,
    {
        let n = self.balance.len();
        proof {
            assert(asset_id < n);
        }
        self.balance.set(asset_id as usize, balance);
    }

    /// The tree slot, if the account was placed.
    pub fn wasm_get_index(&self) -> (r: Option<usize>)
        ensures
            r == self.index,
    {
        self.index
    }

    /// Records the tree slot the account was placed at.
    pub fn wasm_set_index(&mut self, index: usize)
        ensures
            final(self).index == Some(index),
            final(self).balance@ == old(self).balance@,
            final(self).nonce == old(self).nonce,
            final(self).address_fr == old(self).address_fr,
            final(self).latest_seq_sync == old(self).latest_seq_sync,
    {
        self.index = Some(index);
    }

    /// Serializes the account in the fixed binary layout.
    ///
    /// The layout is this library's own, fixed and versioned here alone
    /// (see [`spec_export`]); it is not interchangeable with any other
    /// serialization of an account.
    pub fn wasm_export(&self) -> (r: Vec<u8>)
        ensures
            r@ == spec_export(*self),
    {
        proof {
            lemma_auto_spec_u64_to_from_le_bytes();
        }
        let mut out: Vec<u8> = Vec::new();
        let n = self.balance.len();
        let len_bytes = u64_to_le_bytes(n as u64);
        append_vec(&mut out, &len_bytes);
        let mut i: usize = 0;
        proof {
            assert(self.balance@.subrange(0, 0) =~= Seq::<u64>::empty());
            assert(out@ =~= spec_u64_to_le_bytes(n as u64) + spec_balances_bytes(
                self.balance@.subrange(0, 0),
            ));
        }
        while i < n
            invariant
                0 <= i <= n,
                n == self.balance@.len(),
                out@ == spec_u64_to_le_bytes(n as u64) + spec_balances_bytes(
                    self.balance@.subrange(0, i as int),
                ),
            decreases n - i,
        {
            let b = u64_to_le_bytes(self.balance[i]);
            append_vec(&mut out, &b);
            proof {
                lemma_balances_bytes_snoc(self.balance@.subrange(0, i as int), self.balance@[i as int]);
                assert(self.balance@.subrange(0, i as int).push(self.balance@[i as int])
                    =~= self.balance@.subrange(0, i as int + 1));
                assert(out@ =~= spec_u64_to_le_bytes(n as u64) + spec_balances_bytes(
                    self.balance@.subrange(0, i as int + 1),
                ));
            }
            i = i + 1;
        }
        proof {
            assert(self.balance@.subrange(0, n as int) =~= self.balance@);
        }
        let nonce_bytes = fe_bytes(&self.nonce);
        append_vec(&mut out, &nonce_bytes);
        let address_bytes = fe_bytes(&self.address_fr);
        append_vec(&mut out, &address_bytes);
        let seq_bytes = u64_to_le_bytes(self.latest_seq_sync);
        append_vec(&mut out, &seq_bytes);
        match self.index {
            Some(idx) => {
                out.push(1u8);
                let idx_bytes = u64_to_le_bytes(idx as u64);
                append_vec(&mut out, &idx_bytes);
                proof {
                    assert(out@ =~= spec_export(*self));
                }
            },
            None => {
                out.push(0u8);
                let idx_bytes = u64_to_le_bytes(0u64);
                append_vec(&mut out, &idx_bytes);
                proof {
                    assert(out@ =~= spec_export(*self));
                }
            },
        }
        out
    }

    /// Parses the fixed binary layout back into an account.  Returns the
    /// account whose export the data is, and refuses any other data.
    #[verifier::rlimit(100)]
    pub fn wasm_import(data: &Vec<u8>) -> (r: Option<Account>)
        ensures
            match r {
                Some(a) => data@ == spec_export(a),
                None => true,
            },
            forall|a: Account| data@ == spec_export(a) ==> r is Some,
    {
        proof {
            lemma_auto_spec_u64_to_from_le_bytes();
        }
        if data.len() < 89 || (data.len() - 89) % 8 != 0 {
            proof {
                assert forall|a: Account| data@ == spec_export(a) implies false by {
                    lemma_export_shape(a);
                }
            }
            return None;
        }
        let navail = (data.len() - 89) / 8;
        let k64 = u64_from_le_bytes(slice_subrange(data.as_slice(), 0, 8));
        if k64 != navail as u64 {
            proof {
                assert forall|a: Account| data@ == spec_export(a) implies false by {
                    lemma_export_shape(a);
                    assert(data@.subrange(0, 8)
                        == spec_u64_to_le_bytes(a.balance@.len() as u64));
                    assert(k64 == a.balance@.len() as u64);
                }
            }
            return None;
        }
        let k = navail;
        proof {
            assert(data@.len() == 89 + 8 * k);
        }
        let mut balance: Vec<u64> = Vec::new();
        let mut i: usize = 0;
        while i < k
            invariant
                0 <= i <= k,
                data@.len() == 89 + 8 * k,
                89 + 8 * k <= usize::MAX,
                balance@.len() == i,
                forall|q: int| 0 <= q < i ==> spec_u64_to_le_bytes(#[trigger] balance@[q])
                    == data@.subrange(8 + 8 * q, 16 + 8 * q),
            decreases k - i,
        {
            proof {
                lemma_auto_spec_u64_to_from_le_bytes();
            }
            let b = u64_from_le_bytes(slice_subrange(data.as_slice(), 8 + 8 * i, 16 + 8 * i));
            balance.push(b);
            i = i + 1;
        }
        let off_nonce = 8 + 8 * k;
        let nonce = crate::field::fe_read_at(data, off_nonce);
        let address_fr = crate::field::fe_read_at(data, off_nonce + 32);
        let latest_seq_sync = u64_from_le_bytes(slice_subrange(
            data.as_slice(),
            off_nonce + 64,
            off_nonce + 72,
        ));
        let tag = data[off_nonce + 72];
        let idx64 = u64_from_le_bytes(slice_subrange(
            data.as_slice(),
            off_nonce + 73,
            off_nonce + 81,
        ));
        let index: Option<usize> = if tag == 1 {
            if idx64 > usize::MAX as u64 {
                proof {
                    assert forall|a: Account| data@ == spec_export(a) implies false by {
                        lemma_export_field_positions(a);
                        assert(a.balance@.len() == k);
                        assert(a.index is Some);
                        assert(idx64 == a.index->0 as u64);
                    }
                }
                return None;
            }
            Some(idx64 as usize)
        } else if tag == 0 {
            if idx64 != 0 {
                proof {
                    assert forall|a: Account| data@ == spec_export(a) implies false by {
                        lemma_export_field_positions(a);
                        assert(a.balance@.len() == k);
                    }
                }
                return None;
            }
            None
        } else {
            proof {
                assert forall|a: Account| data@ == spec_export(a) implies false by {
                    lemma_export_field_positions(a);
                    assert(a.balance@.len() == k);
                }
            }
            return None;
        };
        let a = Account { balance, nonce, address_fr, latest_seq_sync, index };
        proof {
            lemma_export_field_positions(a);
            assert(a.balance@.len() == k);
            assert(spec_u64_to_le_bytes(a.balance@.len() as u64) == data@.subrange(0, 8));
            assert(spec_balances_bytes(a.balance@) == data@.subrange(8, 8 + 8 * k as int)) by {
                lemma_balances_bytes_matches(a.balance@, data@, 8);
            }
            assert(spec_export(a).len() == data@.len()) by {
                lemma_export_shape(a);
            }
            assert(data@ =~= spec_export(a));
        }
        Some(a)
    }
}

/// The byte string of a balance vector: each entry as eight bytes,
/// little-endian, in order.
pub open spec fn spec_balances_bytes(b: Seq<u64>) -> Seq<u8>
    decreases b.len(),
{
    if b.len() == 0 {
        Seq::empty()
    } else {
        spec_u64_to_le_bytes(b[0]) + spec_balances_bytes(b.subrange(1, b.len() as int))
    }
}

/// The trailing slot encoding: a tag byte, then the slot as eight bytes.
pub open spec fn spec_index_bytes(idx: Option<usize>) -> Seq<u8> {
    match idx {
        Some(i) => seq![1u8] + spec_u64_to_le_bytes(i as u64),
        None => seq![0u8] + spec_u64_to_le_bytes(0u64),
    }
}

/// The fixed export layout of an account: balance count, balances, nonce,
/// address, sync counter, slot.
pub open spec fn spec_export(a: Account) -> Seq<u8> {
    spec_u64_to_le_bytes(a.balance@.len() as u64) + spec_balances_bytes(a.balance@) + a.nonce@
        + a.address_fr@ + spec_u64_to_le_bytes(a.latest_seq_sync) + spec_index_bytes(a.index)
}

proof fn lemma_balances_bytes_len(b: Seq<u64>)
    ensures
        spec_balances_bytes(b).len() == 8 * b.len(),
    decreases b.len(),
{
    lemma_auto_spec_u64_to_from_le_bytes();
    if b.len() > 0 {
        lemma_balances_bytes_len(b.subrange(1, b.len() as int));
    }
}

proof fn lemma_balances_bytes_snoc(b: Seq<u64>, x: u64)
    ensures
        spec_balances_bytes(b.push(x)) == spec_balances_bytes(b) + spec_u64_to_le_bytes(x),
    decreases b.len(),
{
    lemma_auto_spec_u64_to_from_le_bytes();
    assert(spec_balances_bytes(Seq::<u64>::empty()) == Seq::<u8>::empty());
    if b.len() == 0 {
        assert(b.push(x)[0] == x);
        assert(b.push(x).subrange(1, 1) =~= Seq::<u64>::empty());
        assert(spec_balances_bytes(b.push(x))
            == spec_u64_to_le_bytes(x) + spec_balances_bytes(Seq::<u64>::empty()));
        assert(spec_balances_bytes(b.push(x))
            =~= spec_balances_bytes(b) + spec_u64_to_le_bytes(x));
    } else {
        assert(b.push(x)[0] == b[0]);
        assert(b.push(x).subrange(1, b.len() as int + 1) =~= b.subrange(1, b.len() as int).push(x));
        lemma_balances_bytes_snoc(b.subrange(1, b.len() as int), x);
        assert(spec_balances_bytes(b.push(x))
            =~= spec_balances_bytes(b) + spec_u64_to_le_bytes(x));
    }
}

/// Each balance entry stands at its slot in the balance byte string.
proof fn lemma_balances_bytes_index(b: Seq<u64>, q: int)
    requires
        0 <= q < b.len(),
    ensures
        spec_balances_bytes(b).subrange(8 * q, 8 * q + 8) == spec_u64_to_le_bytes(b[q]),
    decreases b.len(),
{
    lemma_auto_spec_u64_to_from_le_bytes();
    lemma_balances_bytes_len(b);
    if q == 0 {
        lemma_balances_bytes_len(b.subrange(1, b.len() as int));
        assert(spec_balances_bytes(b).subrange(0, 8) =~= spec_u64_to_le_bytes(b[0]));
    } else {
        let tail = b.subrange(1, b.len() as int);
        lemma_balances_bytes_index(tail, q - 1);
        lemma_balances_bytes_len(tail);
        assert(tail[q - 1] == b[q]);
        assert(spec_balances_bytes(b).subrange(8 * q, 8 * q + 8)
            =~= spec_balances_bytes(tail).subrange(8 * (q - 1), 8 * (q - 1) + 8));
    }
}

/// A balance vector whose entries each match their slot of a byte string
/// serializes to exactly that segment.
proof fn lemma_balances_bytes_matches(b: Seq<u64>, data: Seq<u8>, off: int)
    requires
        0 <= off,
        off + 8 * b.len() <= data.len(),
        forall|q: int| 0 <= q < b.len() ==> spec_u64_to_le_bytes(#[trigger] b[q])
            == data.subrange(off + 8 * q, off + 8 * q + 8),
    ensures
        spec_balances_bytes(b) == data.subrange(off, off + 8 * b.len()),
    decreases b.len(),
{
    lemma_auto_spec_u64_to_from_le_bytes();
    lemma_balances_bytes_len(b);
    if b.len() == 0 {
        assert(spec_balances_bytes(b) =~= data.subrange(off, off));
    } else {
        let tail = b.subrange(1, b.len() as int);
        assert forall|q: int| 0 <= q < tail.len() implies spec_u64_to_le_bytes(#[trigger] tail[q])
            == data.subrange(off + 8 + 8 * q, off + 8 + 8 * q + 8) by {
            assert(tail[q] == b[q + 1]);
            assert(spec_u64_to_le_bytes(b[q + 1])
                == data.subrange(off + 8 * (q + 1), off + 8 * (q + 1) + 8));
        }
        lemma_balances_bytes_matches(tail, data, off + 8);
        lemma_balances_bytes_len(tail);
        assert(spec_u64_to_le_bytes(b[0]) == data.subrange(off, off + 8));
        assert(spec_balances_bytes(b) =~= data.subrange(off, off + 8 * b.len()));
    }
}

/// The length and residue of an export: 89 bytes of frame plus eight per
/// balance, and the count field holds the balance count.
proof fn lemma_export_shape(a: Account)
    ensures
        spec_export(a).len() == 89 + 8 * a.balance@.len(),
        spec_export(a).subrange(0, 8) == spec_u64_to_le_bytes(a.balance@.len() as u64),
{
    broadcast use crate::field::lemma_fe_view_len;

    lemma_auto_spec_u64_to_from_le_bytes();
    lemma_balances_bytes_len(a.balance@);
    assert(spec_export(a).subrange(0, 8) =~= spec_u64_to_le_bytes(a.balance@.len() as u64));
}

/// Where every field of an export stands, for an account with `k`
/// balances.
proof fn lemma_export_field_positions(a: Account)
    ensures
        ({
            let k = a.balance@.len() as int;
            let e = spec_export(a);
            &&& e.len() == 89 + 8 * k
            &&& e.subrange(0, 8) == spec_u64_to_le_bytes(a.balance@.len() as u64)
            &&& (forall|q: int| 0 <= q < k ==> e.subrange(8 + 8 * q, 16 + 8 * q)
                == spec_u64_to_le_bytes(#[trigger] a.balance@[q]))
            &&& e.subrange(8 + 8 * k, 40 + 8 * k) == a.nonce@
            &&& e.subrange(40 + 8 * k, 72 + 8 * k) == a.address_fr@
            &&& e.subrange(72 + 8 * k, 80 + 8 * k) == spec_u64_to_le_bytes(a.latest_seq_sync)
            &&& e[80 + 8 * k] == (if a.index is Some { 1u8 } else { 0u8 })
            &&& e.subrange(81 + 8 * k, 89 + 8 * k) == spec_u64_to_le_bytes(
                match a.index {
                    Some(i) => i as u64,
                    None => 0u64,
                },
            )
        }),
{
    broadcast use crate::field::lemma_fe_view_len;

    lemma_auto_spec_u64_to_from_le_bytes();
    lemma_balances_bytes_len(a.balance@);
    let k = a.balance@.len() as int;
    let e = spec_export(a);
    assert(e.subrange(0, 8) =~= spec_u64_to_le_bytes(a.balance@.len() as u64));
    assert forall|q: int| 0 <= q < k implies e.subrange(8 + 8 * q, 16 + 8 * q)
        == spec_u64_to_le_bytes(#[trigger] a.balance@[q]) by {
        lemma_balances_bytes_index(a.balance@, q);
        assert(e.subrange(8 + 8 * q, 16 + 8 * q)
            =~= spec_balances_bytes(a.balance@).subrange(8 * q, 8 * q + 8));
    }
    assert(e.subrange(8 + 8 * k, 40 + 8 * k) =~= a.nonce@);
    assert(e.subrange(40 + 8 * k, 72 + 8 * k) =~= a.address_fr@);
    assert(e.subrange(72 + 8 * k, 80 + 8 * k) =~= spec_u64_to_le_bytes(a.latest_seq_sync));
    assert(e.subrange(81 + 8 * k, 89 + 8 * k) =~= spec_u64_to_le_bytes(
        match a.index {
            Some(i) => i as u64,
            None => 0u64,
        },
    ));
}

/// One export determines every account field: the layout is injective.
pub proof fn lemma_export_injective(a: Account, b: Account)
    requires
        spec_export(a) == spec_export(b),
    ensures
        a.balance@ == b.balance@,
        a.nonce == b.nonce,
        a.address_fr == b.address_fr,
        a.latest_seq_sync == b.latest_seq_sync,
        a.index == b.index,
{
    lemma_auto_spec_u64_to_from_le_bytes();
    lemma_export_field_positions(a);
    lemma_export_field_positions(b);
    lemma_export_shape(a);
    lemma_export_shape(b);
    assert(a.balance@.len() as u64 == b.balance@.len() as u64) by {
        assert(spec_u64_from_le_bytes(spec_u64_to_le_bytes(a.balance@.len() as u64))
            == spec_u64_from_le_bytes(spec_u64_to_le_bytes(b.balance@.len() as u64)));
    }
    assert(a.balance@.len() == b.balance@.len());
    let k = a.balance@.len() as int;
    assert forall|q: int| 0 <= q < k implies a.balance@[q] == b.balance@[q] by {
        assert(spec_u64_to_le_bytes(a.balance@[q]) == spec_u64_to_le_bytes(b.balance@[q]));
        assert(spec_u64_from_le_bytes(spec_u64_to_le_bytes(a.balance@[q]))
            == spec_u64_from_le_bytes(spec_u64_to_le_bytes(b.balance@[q])));
    }
    assert(a.balance@ =~= b.balance@);
    assert(a.nonce@ == b.nonce@);
    crate::field::lemma_fe_eq_from_view(a.nonce, b.nonce);
    crate::field::lemma_fe_eq_from_view(a.address_fr, b.address_fr);
    assert(spec_u64_from_le_bytes(spec_u64_to_le_bytes(a.latest_seq_sync))
        == spec_u64_from_le_bytes(spec_u64_to_le_bytes(b.latest_seq_sync)));
    match (a.index, b.index) {
        (Some(i), Some(j)) => {
            assert(spec_u64_from_le_bytes(spec_u64_to_le_bytes(i as u64))
                == spec_u64_from_le_bytes(spec_u64_to_le_bytes(j as u64)));
            assert(i as u64 == j as u64);
        },
        (None, None) => {},
        _ => {
            assert(spec_export(a)[80 + 8 * k] != spec_export(b)[80 + 8 * k]);
        },
    }
}

/// Appends one byte vector to another.
fn append_vec(out: &mut Vec<u8>, v: &Vec<u8>)
    ensures
        final(out)@ == old(out)@ + v@,
{
    let mut i: usize = 0;
    while i < v.len()
        invariant
            0 <= i <= v@.len(),
            out@ =~= old(out)@ + v@.subrange(0, i as int),
        decreases v@.len() - i,
    {
        out.push(v[i]);
        i = i + 1;
    }
    proof {
        assert(old(out)@ + v@.subrange(0, v@.len() as int) =~= old(out)@ + v@);
    }
}



/// An account together with the ordered list of known leaf commitments.
#[derive(Clone, Debug)]
pub struct State {
    pub account: Account,
    pub merkle_leafs: Vec<Fe>,
}

impl State {
    /// Reduced leaf encodings, and a leaf count a dense tree build admits.
    pub open spec fn wf(&self) -> bool {
        &&& self.account.wf()
        &&& self.merkle_leafs@.len() <= 0xffff_ffff
        &&& (forall|i: int| 0 <= i < self.merkle_leafs@.len() ==> fe_wf(
            (#[trigger] self.merkle_leafs@[i])@,
        ))
    }

    /// A state with no known leaves.
    pub fn wasm_new(account: Account) -> (r: State)
        ensures
            r.account == account,
            r.merkle_leafs@.len() == 0,
    {
        State { account, merkle_leafs: Vec::new() }
    }

    /// Replaces the leaf list with hex-encoded commitments, big-endian.
    pub fn wasm_set_leafs(&mut self, leafs: &Vec<String>)
        requires
            leafs@.len() <= 0xffff_ffff,
            forall|i: int| 0 <= i < leafs@.len() ==> valid_hex((#[trigger] leafs@[i])@),
        ensures
            final(self).account == old(self).account,
            final(self).merkle_leafs@.len() == leafs@.len(),
            forall|i: int| 0 <= i < leafs@.len() ==> fe_wf((#[trigger] final(self).merkle_leafs@[i])@)
                && le_val(final(self).merkle_leafs@[i]@) == be_val(
                spec_hex_decode(leafs@[i]@),
            ) % fr_modulus(),
    {
        let mut out: Vec<Fe> = Vec::new();
        let mut i: usize = 0;
        while i < leafs.len()
            invariant
                0 <= i <= leafs@.len(),
                out@.len() == i,
                forall|k: int| 0 <= k < leafs@.len() ==> valid_hex((#[trigger] leafs@[k])@),
                forall|k: int| 0 <= k < i ==> fe_wf((#[trigger] out@[k])@) && le_val(out@[k]@)
                    == be_val(spec_hex_decode(leafs@[k]@)) % fr_modulus(),
            decreases leafs@.len() - i,
        {
            let raw = match hex_decode(&leafs[i]) {
                Some(v) => v,
                None => {
                    proof {
                        assert(false);
                    }
                    Vec::new()
                },
            };
            out.push(fe_from_be_bytes(&raw));
            i = i + 1;
        }
        self.merkle_leafs = out;
    }

    /// Appends hex-encoded commitments to the leaf list.
    pub fn wasm_add_leafs(&mut self, leafs: &Vec<String>)
        requires
            old(self).merkle_leafs@.len() + leafs@.len() <= 0xffff_ffff,
            forall|i: int| 0 <= i < leafs@.len() ==> valid_hex((#[trigger] leafs@[i])@),
        ensures
            final(self).account == old(self).account,
            final(self).merkle_leafs@.len() == old(self).merkle_leafs@.len() + leafs@.len(),
            forall|i: int| 0 <= i < old(self).merkle_leafs@.len()
                ==> (#[trigger] final(self).merkle_leafs@[i]) == old(self).merkle_leafs@[i],
            forall|i: int| 0 <= i < leafs@.len() ==> fe_wf(
                (#[trigger] final(self).merkle_leafs@[old(self).merkle_leafs@.len() + i])@,
            ) && le_val(final(self).merkle_leafs@[old(self).merkle_leafs@.len() + i]@) == be_val(
                spec_hex_decode(leafs@[i]@),
            ) % fr_modulus(),
    {
        let ghost base = self.merkle_leafs@.len();
        let mut i: usize = 0;
        while i < leafs.len()
            invariant
                0 <= i <= leafs@.len(),
                self.account == old(self).account,
                base == old(self).merkle_leafs@.len(),
                self.merkle_leafs@.len() == base + i,
                forall|k: int| 0 <= k < leafs@.len() ==> valid_hex((#[trigger] leafs@[k])@),
                forall|k: int| 0 <= k < base ==> (#[trigger] self.merkle_leafs@[k]) == old(
                    self,
                ).merkle_leafs@[k],
                forall|k: int| 0 <= k < i ==> fe_wf(
                    (#[trigger] self.merkle_leafs@[base + k])@,
                ) && le_val(self.merkle_leafs@[base + k]@) == be_val(
                    spec_hex_decode(leafs@[k]@),
                ) % fr_modulus(),
            decreases leafs@.len() - i,
        {
            let raw = match hex_decode(&leafs[i]) {
                Some(v) => v,
                None => {
                    proof {
                        assert(false);
                    }
                    Vec::new()
                },
            };
            self.merkle_leafs.push(fe_from_be_bytes(&raw));
            i = i + 1;
        }
    }

    /// The leaf list, hex-encoded big-endian, as `wasm_set_leafs` reads it.
    pub fn wasm_get_leafs(&self) -> (r: Vec<String>)
        ensures
            r@.len() == self.merkle_leafs@.len(),
            forall|i: int| 0 <= i < r@.len() ==> is_hex_of(
                (#[trigger] r@[i])@,
                crate::field::rev_bytes(self.merkle_leafs@[i]@),
            ),
    {
        let mut out: Vec<String> = Vec::new();
        let mut i: usize = 0;
        while i < self.merkle_leafs.len()
            invariant
                0 <= i <= self.merkle_leafs@.len(),
                out@.len() == i,
                forall|k: int| 0 <= k < i ==> is_hex_of(
                    (#[trigger] out@[k])@,
                    crate::field::rev_bytes(self.merkle_leafs@[k]@),
                ),
            decreases self.merkle_leafs@.len() - i,
        {
            let bytes = crate::field::fe_bytes_be(&self.merkle_leafs[i]);
            out.push(hex_encode(&bytes));
            i = i + 1;
        }
        out
    }

    /// How many leaves are known.
    pub fn wasm_get_leafs_length(&self) -> (r: usize)
        ensures
            r == self.merkle_leafs@.len(),
    {
        self.merkle_leafs.len()
    }
}

/// The leaf commitment the account's current balances chain to: the fold
/// of the hash over the canonical balance encodings, seeded at the
/// address/nonce prehash.
pub open spec fn spec_account_leaf(a: Account) -> Seq<u8> {
    hash_chain(
        hash_of(a.address_fr@, a.nonce@),
        Seq::new(a.balance@.len(), |k: int| enc64(a.balance@[k])),
    )
}

/// The current value of the account's tree slot: its listed commitment,
/// or the empty leaf where the slot lies beyond the known list.  An
/// unplaced account reads slot zero, as the deployed entrypoint did.
pub open spec fn spec_slot_leaf(state: State) -> Seq<u8> {
    let slot: int = match state.account.index {
        Some(i) => i as int,
        None => 0,
    };
    if 0 <= slot < state.merkle_leafs@.len() {
        state.merkle_leafs@[slot]@
    } else {
        zero32()
    }
}

/// Why a witness derivation stopped before reaching the backend.
#[derive(Clone, Copy, Debug, PartialEq, Eq)]
pub enum ProveError {
    /// The delta vector does not match the balance vector's length.
    DiffLength,
    /// The known leaf set does not fit a tree of the fixed height.
    TreeCapacity,
    /// The derived witness does not satisfy the relation.
    Unsatisfied,
}

/// A derived witness, with the public inputs serialized in their fixed
/// order: root, delta commitment, nullifier, after-leaf, public address,
/// auxiliary value.
pub struct ProveOutput {
    pub circuit: MainCircuit,
    pub public_inputs: Vec<Fe>,
    pub public_inputs_bytes: Vec<u8>,
    pub before_leaf: Fe,
    pub after_nullifier: Fe,
}

/// Appends the 32-byte encoding of one element.
fn append_fe_bytes(out: &mut Vec<u8>, f: &Fe)
    ensures
        final(out)@ == old(out)@ + f@,
{
    let v = fe_bytes(f);
    let mut i: usize = 0;
    while i < v.len()
        invariant
            0 <= i <= v@.len(),
            v@ == f@,
            out@ =~= old(out)@ + v@.subrange(0, i as int),
        decreases v@.len() - i,
    {
        out.push(v[i]);
        i = i + 1;
    }
    proof {
        assert(old(out)@ + v@.subrange(0, v@.len() as int) =~= old(out)@ + v@);
    }
}

/// Derives the witness for applying `diffs` to the account held in
/// `state`, evaluates the relation on it, and returns it with the ordered
/// public inputs.  A fresh account (no tree slot) gets a zero nullifier; a
/// placed account gets the deterministic nullifier of its spent leaf and
/// the membership path of its slot.
pub fn prove(state: &State, diffs: &Vec<i64>, is_public: bool, aux: &Fe, hasher: &PoseidonHash)
    -> (r: Result<ProveOutput, ProveError>)
    requires
        state.wf(),
        fe_wf(aux@),
        state.account.index matches Some(idx) ==> idx < pow2(LEVEL as nat),
    ensures
        match r {
            Ok(out) => {
                &&& out.circuit.wf()
                &&& out.circuit.satisfied()
                &&& diffs@.len() == state.account.balance@.len()
                &&& out.circuit.before@.len() == state.account.balance@.len()
                &&& (forall|i: int| 0 <= i < state.account.balance@.len() ==> le_val(
                    (#[trigger] out.circuit.before@[i])@,
                ) == state.account.balance@[i])
                &&& (forall|i: int| 0 <= i < diffs@.len() ==> le_val(
                    (#[trigger] out.circuit.diff@[i])@,
                ) == (diffs@[i] as int) % fr_modulus())
                &&& out.circuit.nonce == state.account.nonce
                &&& out.circuit.address == state.account.address_fr
                &&& out.circuit.aux == *aux
                &&& (is_public ==> out.circuit.public_address == state.account.address_fr)
                &&& (!is_public ==> le_val(out.circuit.public_address@) == 0)
                &&& (state.account.index is None ==> le_val(out.circuit.nullifier@) == 0)
                &&& (state.account.index is Some ==> out.circuit.nullifier@
                    == out.circuit.spec_nullifier())
                &&& out.circuit.after_leaf@ == out.circuit.spec_after_leaf()
                &&& out.circuit.diff_hash@ == out.circuit.spec_diff_hash()
                &&& out.before_leaf@ == out.circuit.spec_before_leaf()
                &&& out.after_nullifier@ == hash_of(
                    out.circuit.spec_after_leaf(),
                    state.account.nonce@,
                )
                &&& out.public_inputs@.len() == 6
                &&& out.public_inputs@[0] == out.circuit.merkle_root
                &&& out.public_inputs@[1] == out.circuit.diff_hash
                &&& out.public_inputs@[2] == out.circuit.nullifier
                &&& out.public_inputs@[3] == out.circuit.after_leaf
                &&& out.public_inputs@[4] == out.circuit.public_address
                &&& out.public_inputs@[5] == out.circuit.aux
                &&& out.public_inputs_bytes@ == out.circuit.merkle_root@
                    + out.circuit.diff_hash@ + out.circuit.nullifier@ + out.circuit.after_leaf@
                    + out.circuit.public_address@ + out.circuit.aux@
                &&& out.circuit.merkle_path.path@.len() == LEVEL
                &&& out.circuit.merkle_root@ == (if state.merkle_leafs@.len() > 0 {
                    spec_subtree_root(state.merkle_leafs@, zero32(), LEVEL as nat, 0)
                } else {
                    spec_defaults(zero32(), (LEVEL - 1) as nat)
                })
                &&& spec_calc_root(spec_slot_leaf(*state), out.circuit.merkle_path.path@) == Some(
                    spec_subtree_root(state.merkle_leafs@, zero32(), LEVEL as nat, 0),
                )
            },
            Err(ProveError::DiffLength) => diffs@.len() != state.account.balance@.len(),
            Err(ProveError::TreeCapacity) => {
                &&& diffs@.len() == state.account.balance@.len()
                &&& state.merkle_leafs@.len() > pow2(LEVEL as nat)
            },
            Err(ProveError::Unsatisfied) => {
                &&& diffs@.len() == state.account.balance@.len()
                &&& state.merkle_leafs@.len() <= pow2(LEVEL as nat)
            },
        },
        // success is owed to a fresh account: all-zero balances, no tree
        // slot, and deltas that leave no balance negative
        (diffs@.len() == state.account.balance@.len() && state.merkle_leafs@.len() <= pow2(
            LEVEL as nat,
        ) && state.account.index is None && (forall|i: int|
            0 <= i < state.account.balance@.len() ==> (#[trigger] state.account.balance@[i]) == 0)
            && (forall|i: int| 0 <= i < diffs@.len() ==> state.account.balance@[i]
            + (#[trigger] diffs@[i]) >= 0)) ==> r is Ok,
        // success is also owed to a placed account whose listed slot holds
        // its current leaf commitment, under deltas that leave no balance
        // negative: spending within the balance always proves
        (diffs@.len() == state.account.balance@.len() && state.merkle_leafs@.len() <= pow2(
            LEVEL as nat,
        ) && (state.account.index matches Some(i) && 0 <= i < state.merkle_leafs@.len()
            && state.merkle_leafs@[i as int]@ == spec_account_leaf(state.account)) && (forall|
            i: int,
        |
            0 <= i < diffs@.len() ==> state.account.balance@[i] + (#[trigger] diffs@[i])
                >= 0)) ==> r is Ok,
{
    if diffs.len() != state.account.balance.len() {
        return Err(ProveError::DiffLength);
    }
    let n = state.account.balance.len();
    let mut before: Vec<Fe> = Vec::new();
    let mut i: usize = 0;
    while i < n
        invariant
            0 <= i <= n,
            n == state.account.balance@.len(),
            before@.len() == i,
            forall|k: int| 0 <= k < i ==> fe_wf((#[trigger] before@[k])@) && le_val(before@[k]@)
                == state.account.balance@[k],
        decreases n - i,
    {
        before.push(fe_from_u64(state.account.balance[i]));
        i = i + 1;
    }
    let mut diff: Vec<Fe> = Vec::new();
    let mut i: usize = 0;
    while i < n
        invariant
            0 <= i <= n,
            n == diffs@.len(),
            diff@.len() == i,
            forall|k: int| 0 <= k < i ==> fe_wf((#[trigger] diff@[k])@) && le_val(diff@[k]@) == (
            diffs@[k] as int) % fr_modulus(),
        decreases n - i,
    {
        diff.push(fe_from_i64(diffs[i]));
        i = i + 1;
    }
    let mut after: Vec<Fe> = Vec::new();
    let mut i: usize = 0;
    while i < n
        invariant
            0 <= i <= n,
            n == before@.len() == diff@.len(),
            after@.len() == i,
            forall|k: int| 0 <= k < n ==> fe_wf((#[trigger] before@[k])@),
            forall|k: int| 0 <= k < n ==> fe_wf((#[trigger] diff@[k])@),
            forall|k: int| 0 <= k < i ==> fe_wf((#[trigger] after@[k])@) && le_val(after@[k]@) == (
            le_val(before@[k]@) + le_val(diff@[k]@)) % fr_modulus(),
        decreases n - i,
    {
        after.push(fe_add(&before[i], &diff[i]));
        i = i + 1;
    }
    let zero = fe_zero();
    let tree = match SparseMerkleTree::new_sequential(&state.merkle_leafs, hasher, &zero, LEVEL) {
        Ok(t) => t,
        Err(_) => {
            return Err(ProveError::TreeCapacity);
        },
    };
    let merkle_root = tree.root();
    proof {
        vstd::arithmetic::power2::lemma_pow2_pos(LEVEL as nat);
    }
    let merkle_path = match state.account.wasm_get_index() {
        Some(idx) => tree.generate_membership_proof(idx as u64),
        None => tree.generate_membership_proof(0),
    };
    let ghost slotu: u64 = match state.account.index {
        Some(i) => i as u64,
        None => 0u64,
    };
    proof {
        let hn = LEVEL as nat;
        let m2 = tree.tree@;
        let eh2 = tree.empty_hashes@;
        vstd::arithmetic::power2::lemma2_to64();
        vstd::arithmetic::power2::lemma2_to64_rest();
        vstd::arithmetic::power2::lemma_pow2_strictly_increases(hn, 63);
        lemma_dense_tree_root(tree, state.merkle_leafs@);
        // the walked slot carries its listed value (or the empty leaf)
        let slot_key = (pow2(hn) - 1 + slotu) as u64;
        assert(node_value(m2, eh2, hn, slot_key) == spec_subtree_root(
            state.merkle_leafs@,
            zero32(),
            0,
            slotu as int,
        ));
        assert(spec_subtree_root(state.merkle_leafs@, zero32(), 0, slotu as int)
            == spec_slot_leaf(*state));
        assert(spec_calc_root(spec_slot_leaf(*state), merkle_path.path@) == Some(
            node_value(m2, eh2, hn, 0u64),
        ));
        // the committed root is the Merkle root of the leaf list, or the
        // topmost default of an unpopulated tree
        if state.merkle_leafs@.len() > 0 {
            assert(m2.contains_key(0u64));
            assert(merkle_root@ == node_value(m2, eh2, hn, 0u64));
        } else {
            assert(!m2.contains_key(0u64));
            assert(merkle_root@ == spec_defaults(zero32(), (LEVEL - 1) as nat));
            assert(node_value(m2, eh2, hn, 0u64) == spec_subtree_root(
                state.merkle_leafs@,
                zero32(),
                hn,
                0,
            ));
        }
    }
    let prehash = hasher.hash(&state.account.address_fr, &state.account.nonce);
    let before_leaf = chain_hash(&prehash, &before, hasher);
    let after_leaf = chain_hash(&prehash, &after, hasher);
    let diff_hash = chain_hash(&zero, &diff, hasher);
    let nullifier = match state.account.wasm_get_index() {
        Some(_) => hasher.hash(&before_leaf, &state.account.nonce),
        None => fe_zero(),
    };
    let after_nullifier = hasher.hash(&after_leaf, &state.account.nonce);
    let public_address = if is_public {
        state.account.address_fr
    } else {
        fe_zero()
    };
    let circuit = MainCircuit {
        nonce: state.account.nonce,
        before,
        diff,
        after,
        merkle_root,
        merkle_path,
        diff_hash,
        nullifier,
        after_leaf,
        hasher: *hasher,
        address: state.account.address_fr,
        public_address,
        aux: *aux,
    };
    proof {
        if forall|i: int| 0 <= i < diffs@.len() ==> state.account.balance@[i]
            + (#[trigger] diffs@[i]) >= 0 {
            // where no balance goes negative, every after-balance is the
            // plain integer sum, which lies far below the half-range bound
            assert forall|k: int| 0 <= k < circuit.before@.len() implies {
                &&& le_val((#[trigger] circuit.after@[k])@) == (le_val(circuit.before@[k]@)
                    + le_val(circuit.diff@[k]@)) % fr_modulus()
                &&& le_val(circuit.after@[k]@) < crate::field::fr_half()
            } by {
                let d = diffs@[k] as int;
                let b = state.account.balance@[k] as int;
                assert(b + d >= 0);
                assert(le_val(circuit.before@[k]@) == b);
                assert(le_val(circuit.diff@[k]@) == d % fr_modulus());
                assert(le_val(circuit.after@[k]@) == (b + (d % fr_modulus())) % fr_modulus());
                if d >= 0 {
                    vstd::arithmetic::div_mod::lemma_small_mod(d as nat, fr_modulus() as nat);
                    assert(b + (d % fr_modulus()) == b + d);
                } else {
                    // a negative delta stands for modulus + d; the sum
                    // wraps back to the plain integer sum
                    vstd::arithmetic::div_mod::lemma_mod_multiples_vanish(
                        1,
                        d,
                        fr_modulus(),
                    );
                    vstd::arithmetic::div_mod::lemma_small_mod(
                        (fr_modulus() + d) as nat,
                        fr_modulus() as nat,
                    );
                    assert(d % fr_modulus() == fr_modulus() + d);
                    vstd::arithmetic::div_mod::lemma_mod_multiples_vanish(
                        1,
                        b + d,
                        fr_modulus(),
                    );
                    assert((b + (fr_modulus() + d)) % fr_modulus() == (b + d) % fr_modulus());
                }
                vstd::arithmetic::div_mod::lemma_small_mod((b + d) as nat, fr_modulus() as nat);
                assert(le_val(circuit.after@[k]@) == b + d);
                assert(b + d < crate::field::fr_half());
            }
            if state.account.index is None && (forall|i: int|
                0 <= i < state.account.balance@.len() ==> (#[trigger] state.account.balance@[i])
                    == 0) {
                crate::circuit::lemma_zero_balances_fresh(circuit);
                assert(circuit.satisfied());
            }
            if let Some(si) = state.account.index {
                if 0 <= si < state.merkle_leafs@.len() && state.merkle_leafs@[si as int]@
                    == spec_account_leaf(state.account) {
                // the before-leaf chain is the account's leaf commitment
                assert forall|k: int| 0 <= k < circuit.before@.len() implies (
                #[trigger] circuit.before@[k])@ == enc64(state.account.balance@[k]) by {
                    crate::field::lemma_u64_encoding_unique(
                        circuit.before@[k],
                        state.account.balance@[k],
                    );
                }
                assert(crate::circuit::fe_views(circuit.before@) =~= Seq::new(
                    state.account.balance@.len(),
                    |k: int| enc64(state.account.balance@[k]),
                ));
                assert(circuit.spec_before_leaf() == spec_account_leaf(state.account));
                // the slot's listed value is that commitment, so the
                // generated path carries it to the committed root
                assert(spec_slot_leaf(*state) == state.merkle_leafs@[si as int]@);
                assert(spec_calc_root(circuit.spec_before_leaf(), circuit.merkle_path.path@)
                    is Some);
                crate::merkle_tree::lemma_blend_agrees_with_native(
                    circuit.spec_before_leaf(),
                    circuit.merkle_path.path@,
                );
                assert(circuit.spec_membership());
                assert(circuit.spec_nullifier() == circuit.nullifier@);
                assert(circuit.satisfied());
                }
            }
        }
    }
    if !circuit.is_satisfied(hasher) {
        return Err(ProveError::Unsatisfied);
    }
    let mut public_inputs: Vec<Fe> = Vec::new();
    public_inputs.push(circuit.merkle_root);
    public_inputs.push(circuit.diff_hash);
    public_inputs.push(circuit.nullifier);
    public_inputs.push(circuit.after_leaf);
    public_inputs.push(circuit.public_address);
    public_inputs.push(circuit.aux);
    let mut public_inputs_bytes: Vec<u8> = Vec::new();
    append_fe_bytes(&mut public_inputs_bytes, &circuit.merkle_root);
    append_fe_bytes(&mut public_inputs_bytes, &circuit.diff_hash);
    append_fe_bytes(&mut public_inputs_bytes, &circuit.nullifier);
    append_fe_bytes(&mut public_inputs_bytes, &circuit.after_leaf);
    append_fe_bytes(&mut public_inputs_bytes, &circuit.public_address);
    append_fe_bytes(&mut public_inputs_bytes, &circuit.aux);
    Ok(ProveOutput { circuit, public_inputs, public_inputs_bytes, before_leaf, after_nullifier })
}

} // verus!
