//! A zero-knowledge balance-update relation over the BN254 scalar field.
//!
//! The library holds the verified core of a privacy-preserving ledger: the
//! Poseidon hash primitive interface, a sparse Merkle tree committing to a set
//! of account leaves, the algebraic relation a valid state transition must
//! satisfy, and the derivation of a full witness from an account and a signed
//! balance delta.  Proof generation itself (the SNARK backend) is delegated to
//! unverified orchestration code outside this crate.
use vstd::prelude::*;

pub mod circuit;
pub mod encoding;
pub mod field;
pub mod merkle_tree;
pub mod poseidon;
pub mod wasm;

verus! {

/// Height of the sparse Merkle tree used by the deployed relation.
pub const LEVEL: usize = 20;

/// Number of per-asset balances in an account.
pub const ASSET_SIZE: usize = 5;

/// The deployed relation: the balance-update circuit at the fixed height
/// and asset count.
pub type Circuit = crate::circuit::MainCircuit;

} // verus!
