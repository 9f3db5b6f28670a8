//! The balance-update relation: the algebraic conditions a valid private
//! state transition must satisfy.
//!
//! The relation is evaluated here on plain values, with the same algebra
//! the in-circuit form enforces: every comparison is a field-element
//! equality, the membership check uses the select-and-blend walk, and the
//! final gate is a disjunction of the fresh-account and existing-account
//! branches.
use vstd::prelude::*;

use crate::field::{
    Fe, fe_wf, le_val, fr_modulus, fr_half, zero32, fe_zero, fe_eq, fe_is_zero, fe_add,
    fe_lt_half,
};
use crate::merkle_tree::{Path, PathVar, path_wf, spec_blend_root};
use crate::poseidon::{PoseidonHash, hash_of, hash_chain};

verus! {

/// The views of a vector of field elements, in order.
pub open spec fn fe_views(s: Seq<Fe>) -> Seq<Seq<u8>> {
    Seq::new(s.len(), |i: int| s[i]@)
}

/// `n` copies of the canonical zero encoding.
pub open spec fn zeros_seq(n: nat) -> Seq<Seq<u8>> {
    Seq::new(n, |i: int| zero32())
}

/// The witness and public inputs of one balance update.
///
/// Private: `nonce`, `before`, `diff`, `after`, `address`, `merkle_path`.
/// Public: `merkle_root`, `diff_hash`, `nullifier`, `after_leaf`,
/// `public_address`, `aux`.
#[derive(Clone, Debug)]
pub struct MainCircuit {
    pub nonce: Fe,
    pub before: Vec<Fe>,
    pub diff: Vec<Fe>,
    pub after: Vec<Fe>,
    pub merkle_root: Fe,
    pub merkle_path: Path,
    pub diff_hash: Fe,
    pub nullifier: Fe,
    pub after_leaf: Fe,
    pub hasher: PoseidonHash,
    pub address: Fe,
    pub public_address: Fe,
    pub aux: Fe,
}

impl MainCircuit {
    /// Structural validity: the three balance vectors share one length and
    /// every held encoding is reduced.
    pub open spec fn wf(&self) -> bool {
        &&& self.before@.len() == self.diff@.len()
        &&& self.before@.len() == self.after@.len()
        &&& (forall|i: int| 0 <= i < self.before@.len() ==> fe_wf((#[trigger] self.before@[i])@))
        &&& (forall|i: int| 0 <= i < self.diff@.len() ==> fe_wf((#[trigger] self.diff@[i])@))
        &&& (forall|i: int| 0 <= i < self.after@.len() ==> fe_wf((#[trigger] self.after@[i])@))
        &&& fe_wf(self.nonce@)
        &&& fe_wf(self.merkle_root@)
        &&& fe_wf(self.diff_hash@)
        &&& fe_wf(self.nullifier@)
        &&& fe_wf(self.after_leaf@)
        &&& fe_wf(self.address@)
        &&& fe_wf(self.public_address@)
        &&& fe_wf(self.aux@)
        &&& path_wf(self.merkle_path.path@)
    }

    /// The seed of every leaf chain: the hash binding address and nonce.
    pub open spec fn spec_prehash(&self) -> Seq<u8> {
        hash_of(self.address@, self.nonce@)
    }

    /// The canonical leaf of this account with an all-zero balance vector.
    pub open spec fn spec_empty_leaf(&self) -> Seq<u8> {
        hash_chain(self.spec_prehash(), zeros_seq(self.before@.len()))
    }

    /// The leaf committing to the balances before the update.
    pub open spec fn spec_before_leaf(&self) -> Seq<u8> {
        hash_chain(self.spec_prehash(), fe_views(self.before@))
    }

    /// The leaf committing to the balances after the update.
    pub open spec fn spec_after_leaf(&self) -> Seq<u8> {
        hash_chain(self.spec_prehash(), fe_views(self.after@))
    }

    /// The commitment to the delta vector, seeded at field zero.
    pub open spec fn spec_diff_hash(&self) -> Seq<u8> {
        hash_chain(zero32(), fe_views(self.diff@))
    }

    /// The deterministic nullifier of the spent leaf.
    pub open spec fn spec_nullifier(&self) -> Seq<u8> {
        hash_of(self.spec_before_leaf(), self.nonce@)
    }

    /// Whether the witness path carries the before-leaf to the public root
    /// under the blend walk the circuit form uses.
    pub open spec fn spec_membership(&self) -> bool {
        spec_blend_root(self.spec_before_leaf(), self.merkle_path.path@) == self.merkle_root@
    }

    /// Every after-balance is the field sum of its before-balance and
    /// delta, and lies strictly below the half-range boundary
    /// (modulus - 1) / 2: the canonical non-negative half of the field.
    pub open spec fn balances_ok(&self) -> bool {
        forall|i: int| 0 <= i < self.before@.len() ==> {
            &&& le_val((#[trigger] self.after@[i])@) == (le_val(self.before@[i]@) + le_val(
                self.diff@[i]@,
            )) % fr_modulus()
            &&& le_val(self.after@[i]@) < fr_half()
        }
    }

    /// The disclosure toggle: the public address is the witness address,
    /// or zero.
    pub open spec fn disclosure_ok(&self) -> bool {
        self.public_address@ == self.address@ || le_val(self.public_address@) == 0
    }

    /// The disjunctive gate: a fresh account (before-leaf is the empty
    /// leaf, nullifier zero) or an existing one (nullifier correctly
    /// derived, before-leaf a member of the root).
    pub open spec fn gate_ok(&self) -> bool {
        (self.spec_before_leaf() == self.spec_empty_leaf() && le_val(self.nullifier@) == 0) || (
        self.spec_nullifier() == self.nullifier@ && self.spec_membership())
    }

    /// The whole relation.
    pub open spec fn satisfied(&self) -> bool {
        &&& self.balances_ok()
        &&& self.spec_after_leaf() == self.after_leaf@
        &&& self.spec_diff_hash() == self.diff_hash@
        &&& self.disclosure_ok()
        &&& self.gate_ok()
    }

    /// An all-zero witness of the given shape.
    pub fn empty(hasher: PoseidonHash, level: usize, assets: usize) -> (r: MainCircuit)
        ensures
            r.wf(),
            r.before@.len() == assets,
            r.merkle_path.path@.len() == level,
            le_val(r.nonce@) == 0,
            le_val(r.address@) == 0,
            le_val(r.merkle_root@) == 0,
            le_val(r.diff_hash@) == 0,
            le_val(r.nullifier@) == 0,
            le_val(r.after_leaf@) == 0,
            le_val(r.public_address@) == 0,
            le_val(r.aux@) == 0,
            forall|i: int| 0 <= i < assets ==> le_val((#[trigger] r.before@[i])@) == 0,
            forall|i: int| 0 <= i < assets ==> le_val((#[trigger] r.diff@[i])@) == 0,
            forall|i: int| 0 <= i < assets ==> le_val((#[trigger] r.after@[i])@) == 0,
            forall|k: int| 0 <= k < level ==> le_val((#[trigger] r.merkle_path.path@[k]).0@) == 0
                && le_val(r.merkle_path.path@[k].1@) == 0,
            r.hasher == hasher,
    {
        let z = fe_zero();
        let mut zeros: Vec<Fe> = Vec::new();
        let mut i: usize = 0;
        while i < assets
            invariant
                0 <= i <= assets,
                zeros@.len() == i,
                fe_wf(z@) && le_val(z@) == 0,
                forall|k: int| 0 <= k < i ==> (#[trigger] zeros@[k]) == z,
            decreases assets - i,
        {
            zeros.push(z);
            i = i + 1;
        }
        let zeros2 = clone_fe_vec(&zeros);
        let zeros3 = clone_fe_vec(&zeros);
        MainCircuit {
            nonce: z,
            before: zeros,
            diff: zeros2,
            after: zeros3,
            merkle_root: z,
            merkle_path: Path::empty(level),
            diff_hash: z,
            nullifier: z,
            after_leaf: z,
            hasher,
            address: z,
            public_address: z,
            aux: z,
        }
    }

    /// Evaluates the relation on this witness, exactly as the in-circuit
    /// form constrains it.
    pub fn is_satisfied(&self, hasher: &PoseidonHash) -> (r: bool)
        requires
            self.wf(),
        ensures
            r == self.satisfied(),
    {
        let n = self.before.len();
        // balance addition and half-range check
        let mut i: usize = 0;
        let mut balances_hold = true;
        while i < n
            invariant
                0 <= i <= n,
                n == self.before@.len(),
                self.wf(),
                balances_hold == (forall|k: int| 0 <= k < i ==> {
                    &&& le_val((#[trigger] self.after@[k])@) == (le_val(self.before@[k]@)
                        + le_val(self.diff@[k]@)) % fr_modulus()
                    &&& le_val(self.after@[k]@) < fr_half()
                }),
            decreases n - i,
        {
            let sum = fe_add(&self.before[i], &self.diff[i]);
            let this_ok = fe_eq(&self.after[i], &sum) && fe_lt_half(&self.after[i]);
            proof {
                if self.after@[i as int]@ == sum@ {
                    crate::field::lemma_le_val_injective(self.after@[i as int]@, sum@);
                } else {
                    if le_val(self.after@[i as int]@) == le_val(sum@) {
                        crate::field::lemma_le_val_injective(self.after@[i as int]@, sum@);
                    }
                }
            }
            balances_hold = balances_hold && this_ok;
            i = i + 1;
        }
        let prehash = hasher.hash(&self.address, &self.nonce);
        let empty_leaf = chain_zeros(&prehash, n, hasher);
        let before_leaf = chain_hash(&prehash, &self.before, hasher);
        let after_leaf = chain_hash(&prehash, &self.after, hasher);
        let zero = fe_zero();
        let diff_hash = chain_hash(&zero, &self.diff, hasher);
        let after_leaf_ok = fe_eq(&after_leaf, &self.after_leaf);
        let diff_hash_ok = fe_eq(&diff_hash, &self.diff_hash);
        let path_var = PathVar::from_path(&self.merkle_path);
        let membership_ok = path_var.check_membership(&self.merkle_root, &before_leaf, hasher);
        let disclosure_ok = fe_eq(&self.public_address, &self.address) || fe_is_zero(
            &self.public_address,
        );
        let nullifier = hasher.hash(&before_leaf, &self.nonce);
        let fresh_ok = fe_eq(&before_leaf, &empty_leaf) && fe_is_zero(&self.nullifier);
        let spent_ok = fe_eq(&nullifier, &self.nullifier) && membership_ok;
        balances_hold && after_leaf_ok && diff_hash_ok && disclosure_ok && (fresh_ok || spent_ok)
    }
}

/// Copies a vector of field elements.
pub fn clone_fe_vec(v: &Vec<Fe>) -> (r: Vec<Fe>)
    ensures
        r@ == v@,
{
    let mut out: Vec<Fe> = Vec::new();
    let mut i: usize = 0;
    while i < v.len()
        invariant
            0 <= i <= v@.len(),
            out@ =~= v@.subrange(0, i as int),
        decreases v@.len() - i,
    {
        out.push(v[i]);
        i = i + 1;
    }
    proof {
        assert(v@.subrange(0, v@.len() as int) =~= v@);
    }
    out
}

/// Folds the hasher over a vector, seeded at `start`.
pub fn chain_hash(start: &Fe, xs: &Vec<Fe>, hasher: &PoseidonHash) -> (r: Fe)
    requires
        fe_wf(start@),
    ensures
        r@ == hash_chain(start@, fe_views(xs@)),
        fe_wf(r@),
{
    let mut acc = *start;
    let mut i: usize = 0;
    proof {
        assert(fe_views(xs@).subrange(0, xs@.len() as int) =~= fe_views(xs@));
    }
    while i < xs.len()
        invariant
            0 <= i <= xs@.len(),
            fe_wf(acc@),
            hash_chain(start@, fe_views(xs@)) == hash_chain(
                acc@,
                fe_views(xs@).subrange(i as int, xs@.len() as int),
            ),
        decreases xs@.len() - i,
    {
        proof {
            let views = fe_views(xs@);
            let rest = views.subrange(i as int, views.len() as int);
            assert(rest[0] == views[i as int]);
            assert(views[i as int] == xs@[i as int]@);
            assert(rest.subrange(1, rest.len() as int)
                =~= views.subrange(i as int + 1, views.len() as int));
        }
        acc = hasher.hash(&acc, &xs[i]);
        i = i + 1;
    }
    proof {
        assert(fe_views(xs@).subrange(xs@.len() as int, xs@.len() as int)
            =~= Seq::<Seq<u8>>::empty());
    }
    acc
}

/// Folds the hasher over `n` zeros, seeded at `start`: the empty-leaf
/// chain.
pub fn chain_zeros(start: &Fe, n: usize, hasher: &PoseidonHash) -> (r: Fe)
    requires
        fe_wf(start@),
    ensures
        r@ == hash_chain(start@, zeros_seq(n as nat)),
        fe_wf(r@),
{
    let z = fe_zero();
    let mut acc = *start;
    let mut i: usize = 0;
    proof {
        assert(zeros_seq(n as nat).subrange(0, n as int) =~= zeros_seq(n as nat));
    }
    while i < n
        invariant
            0 <= i <= n,
            fe_wf(acc@),
            z@ == zero32(),
            hash_chain(start@, zeros_seq(n as nat)) == hash_chain(
                acc@,
                zeros_seq(n as nat).subrange(i as int, n as int),
            ),
        decreases n - i,
    {
        proof {
            let views = zeros_seq(n as nat);
            let rest = views.subrange(i as int, n as int);
            assert(rest[0] == views[i as int]);
            assert(views[i as int] == zero32());
            assert(rest.subrange(1, rest.len() as int)
                =~= views.subrange(i as int + 1, n as int));
        }
        acc = hasher.hash(&acc, &z);
        i = i + 1;
    }
    proof {
        assert(zeros_seq(n as nat).subrange(n as int, n as int) =~= Seq::<Seq<u8>>::empty());
    }
    acc
}


/// For any witness whose balance vector is all zero, the before-leaf is
/// the canonical empty leaf; with a zero nullifier the fresh-account
/// branch of the final disjunction therefore holds.
pub proof fn lemma_zero_balances_fresh(c: MainCircuit)
    requires
        c.wf(),
        forall|i: int| 0 <= i < c.before@.len() ==> le_val((#[trigger] c.before@[i])@) == 0,
    ensures
        c.spec_before_leaf() == c.spec_empty_leaf(),
        le_val(c.nullifier@) == 0 ==> c.gate_ok(),
{
    assert forall|i: int| 0 <= i < c.before@.len() implies (#[trigger] c.before@[i])@
        == zero32() by {
        crate::field::lemma_le_val_zero(zero32());
        crate::field::lemma_le_val_injective(c.before@[i]@, zero32());
    }
    assert(fe_views(c.before@) =~= zeros_seq(c.before@.len()));
}

/// The relation rejects any witness in which some after-balance is not the
/// field sum of its before-balance and delta.
pub proof fn lemma_balance_mismatch_rejected(c: MainCircuit, i: int)
    requires
        0 <= i < c.before@.len(),
        le_val(c.after@[i]@) != (le_val(c.before@[i]@) + le_val(c.diff@[i]@)) % fr_modulus(),
    ensures
        !c.satisfied(),
{
    assert(!c.balances_ok());
}

/// The relation rejects any witness in which some after-balance lies at
/// or beyond the half-range boundary (modulus - 1) / 2, whether or not
/// the additive identity holds.
pub proof fn lemma_half_range_rejected(c: MainCircuit, i: int)
    requires
        0 <= i < c.before@.len(),
        le_val(c.after@[i]@) >= fr_half(),
    ensures
        !c.satisfied(),
{
    assert(!c.balances_ok());
}

/// The disclosure toggle is exact: a public address equal to the witness
/// address or to zero passes, and any other value fails the relation.
pub proof fn lemma_disclosure_exact(c: MainCircuit)
    ensures
        c.disclosure_ok() == (c.public_address@ == c.address@ || le_val(c.public_address@) == 0),
        (c.public_address@ != c.address@ && le_val(c.public_address@) != 0) ==> !c.satisfied(),
{
}

/// Double-update prevention: a witness carrying a nonzero nullifier whose
/// path does not carry its before-leaf to the public root fails both
/// disjuncts,
/// whatever nullifier value it claims.  Replaying a spent leaf against an
/// advanced root is exactly this case.
pub proof fn lemma_double_update_rejected(c: MainCircuit)
    ensures
        (le_val(c.nullifier@) != 0 && !c.spec_membership()) ==> !c.satisfied(),
{
}

} // verus!
