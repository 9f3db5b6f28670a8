//! The two-input Poseidon hash over the BN254 scalar field.
//!
//! The permutation itself is delegated to the arkworks Poseidon
//! implementation through a trusted wrapper; the library reasons about it
//! only through the uninterpreted function [`hash_of`], so every contract
//! states exactly how results are chained, never what a digest looks like.
use vstd::prelude::*;

use crate::field::{Fe, fe_wf};

verus! {

/// The Poseidon compression of two field-element encodings, with this
/// library's fixed parameter set.  The result depends on the two encodings
/// alone.
pub uninterp spec fn hash_of(a: Seq<u8>, b: Seq<u8>) -> Seq<u8>;

/// Left fold of [`hash_of`] over a sequence of elements, seeded at `acc`:
/// `hash_chain(acc, [x, y]) == hash_of(hash_of(acc, x), y)`.
pub open spec fn hash_chain(acc: Seq<u8>, xs: Seq<Seq<u8>>) -> Seq<u8>
    decreases xs.len(),
{
    if xs.len() == 0 {
        acc
    } else {
        hash_chain(hash_of(acc, xs[0]), xs.subrange(1, xs.len() as int))
    }
}

/// The two-to-one Poseidon hasher with the library's fixed parameter set:
/// width 3 (rate 2, capacity 1), eight full and 57 partial rounds, S-box
/// exponent 5, round constants and MDS matrix derived from the standard
/// Grain LFSR stream for the 254-bit BN254 scalar field.
#[derive(Clone, Copy, Debug)]
pub struct PoseidonHash {}

impl PoseidonHash {
    /// A hasher carrying the fixed parameter set.
    pub fn new() -> (r: PoseidonHash) {
        PoseidonHash {}
    }

    /// Relies on `ark_crypto_primitives`' Poseidon `TwoToOneCRH::evaluate`
    /// with the fixed parameter set above: a deterministic function of the
    /// two input encodings, returning a reduced field element.
    #[verifier::external_body]
    pub fn hash(&self, a: &Fe, b: &Fe) -> (r: Fe)
        ensures
            r@ == hash_of(a@, b@),
            fe_wf(r@),
    {
        let (rc, mds) = ark_crypto_primitives::sponge::poseidon::find_poseidon_ark_and_mds::<
            ark_bn254::Fr,
        >(254, 2, 8, 57, 0);
        let cfg = ark_crypto_primitives::sponge::poseidon::PoseidonConfig::new(8, 57, 5, mds, rc, 2, 1);
        let fa: ark_bn254::Fr = ark_ff::PrimeField::from_le_bytes_mod_order(&a.bytes);
        let fb: ark_bn254::Fr = ark_ff::PrimeField::from_le_bytes_mod_order(&b.bytes);
        let h = <ark_crypto_primitives::crh::poseidon::TwoToOneCRH<ark_bn254::Fr> as
            ark_crypto_primitives::crh::TwoToOneCRHScheme>::evaluate(&cfg, fa, fb).unwrap();
        let out = ark_ff::BigInteger::to_bytes_le(&ark_ff::PrimeField::into_bigint(h));
        Fe { bytes: out.try_into().unwrap() }
    }
}

} // verus!
