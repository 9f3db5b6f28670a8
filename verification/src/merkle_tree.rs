//! Sparse Merkle tree over scalar-field leaves, with membership paths in
//! both the branching (native) form and the select-and-blend form used by
//! arithmetic circuits.
//!
//! Nodes are addressed in binary-heap order: the root is `0`, the children
//! of `i` are `2i + 1` and `2i + 2`, and a tree of height `h` keeps its
//! leaves at depth `h`.  Only populated nodes are stored; an unpopulated
//! subtree at level `l` (levels count from the leaves) stands for the
//! cached default hash of that level.
use vstd::prelude::*;
use vstd::arithmetic::power2::*;

use crate::field::{Fe, fe_wf, le_val, fe_zero, fe_eq, fe_from_u64};
use crate::poseidon::{PoseidonHash, hash_of};

use std::collections::BTreeMap;

verus! {

/// Errors raised while building a tree or walking a membership path.
#[derive(Clone, Copy, Debug, PartialEq, Eq)]
pub enum MerkleError {
    /// The leaf handed to a path walk does not stand in the first pair.
    InvalidLeaf,
    /// A running hash does not stand in its level's pair.
    InvalidPath,
    /// The tree cannot hold that many leaves at its height.
    Capacity,
    /// A leaf index lies beyond the last slot of the bottom level.
    IndexOutOfRange,
}

/// Two raised to the power `e`, as a `u64`.
pub fn pow2_u64(e: usize) -> (r: u64)
    requires
        e <= 62,
    ensures
        r as int == pow2(e as nat),
        r >= 1,
{
    let mut r: u64 = 1;
    let mut i: usize = 0;
    proof {
        lemma2_to64();
    }
    while i < e
        invariant
            0 <= i <= e <= 62,
            r as int == pow2(i as nat),
        decreases e - i,
    {
        proof {
            lemma_pow2_strictly_increases(i as nat, 62);
            lemma2_to64_rest();
            assert(pow2((i + 1) as nat) == 2 * pow2(i as nat)) by {
                lemma_pow2_unfold((i + 1) as nat);
            }
        }
        r = r * 2;
        i = i + 1;
    }
    proof {
        lemma_pow2_pos(e as nat);
    }
    r
}

/// Depth of a node index: the root `0` has depth `0`, and the children of a
/// node of depth `d` have depth `d + 1`.
pub open spec fn node_depth(i: u64) -> nat
    decreases i,
{
    if i == 0 {
        0
    } else {
        (1 + node_depth(((i - 1) / 2) as u64)) as nat
    }
}

/// A node of depth `d` lies in the index interval of its level.
pub proof fn lemma_depth_range(i: u64)
    ensures
        pow2(node_depth(i)) - 1 <= i < pow2(node_depth(i) + 1) - 1,
    decreases i,
{
    lemma2_to64();
    if i != 0 {
        let p = ((i - 1) / 2) as u64;
        lemma_depth_range(p);
        lemma_pow2_unfold(node_depth(i));
        lemma_pow2_unfold(node_depth(i) + 1);
    }
}

/// The index interval of a level determines the depth.
pub proof fn lemma_depth_of_range(i: u64, d: nat)
    requires
        pow2(d) - 1 <= i < pow2(d + 1) - 1,
    ensures
        node_depth(i) == d,
{
    lemma_depth_range(i);
    let d2 = node_depth(i);
    if d2 < d {
        lemma_pow2_strictly_increases(d2 + 1, d + 1);
        if d2 + 1 < d {
            lemma_pow2_strictly_increases(d2 + 1, d);
        }
        assert(pow2(d2 + 1) <= pow2(d));
    } else if d2 > d {
        if d + 1 < d2 {
            lemma_pow2_strictly_increases(d + 1, d2);
        }
        assert(pow2(d + 1) <= pow2(d2));
    }
}

/// Children of `i` lie one level below `i`.
pub proof fn lemma_child_depth(i: u64)
    requires
        i < 0x4000_0000_0000_0000,
    ensures
        node_depth((2 * i + 1) as u64) == node_depth(i) + 1,
        node_depth((2 * i + 2) as u64) == node_depth(i) + 1,
{
    assert((((2 * i + 1) as u64 - 1) / 2) as u64 == i);
    assert((((2 * i + 2) as u64 - 1) / 2) as u64 == i);
}

/// A membership path: one `(left, right)` sibling pair per level, ordered
/// from the leaf level up to the root, in tree order.
#[derive(Clone, Debug)]
pub struct Path {
    pub path: Vec<(Fe, Fe)>,
}

/// All pair entries are well-formed field encodings.
pub open spec fn path_wf(pairs: Seq<(Fe, Fe)>) -> bool {
    forall|k: int| 0 <= k < pairs.len() ==> fe_wf((#[trigger] pairs[k]).0@) && fe_wf(pairs[k].1@)
}

/// Whether the walked leaf stands in neither element of the first pair:
/// the walk reports this as an invalid leaf, and any later failure as an
/// invalid path node.
pub open spec fn leaf_mismatch(leaf: Seq<u8>, pairs: Seq<(Fe, Fe)>) -> bool {
    pairs.len() > 0 && leaf != pairs[0].0@ && leaf != pairs[0].1@
}

/// The branching walk from a leaf to a root: at each level the running
/// value must stand on one side of the recorded pair, and the pair is
/// re-hashed.  `None` means the walk failed at some level.
pub open spec fn spec_calc_root(leaf: Seq<u8>, pairs: Seq<(Fe, Fe)>) -> Option<Seq<u8>>
    decreases pairs.len(),
{
    if pairs.len() == 0 {
        Some(leaf)
    } else if leaf == pairs[0].0@ || leaf == pairs[0].1@ {
        spec_calc_root(hash_of(pairs[0].0@, pairs[0].1@), pairs.subrange(1, pairs.len() as int))
    } else {
        None
    }
}

/// The select-and-blend walk used by the in-circuit form: no level can
/// fail; where the running value is not the recorded left element it is
/// hashed in on the right, whatever the recorded right element holds.
pub open spec fn spec_blend_root(leaf: Seq<u8>, pairs: Seq<(Fe, Fe)>) -> Seq<u8>
    decreases pairs.len(),
{
    if pairs.len() == 0 {
        leaf
    } else {
        let h = if leaf == pairs[0].0@ {
            hash_of(pairs[0].0@, pairs[0].1@)
        } else {
            hash_of(pairs[0].0@, leaf)
        };
        spec_blend_root(h, pairs.subrange(1, pairs.len() as int))
    }
}

/// The index reconstructed from a path: adds `2^level` at every level where
/// the running value is not the recorded left element.
pub open spec fn spec_path_index(leaf: Seq<u8>, pairs: Seq<(Fe, Fe)>) -> int
    decreases pairs.len(),
{
    if pairs.len() == 0 {
        0
    } else {
        let bit: int = if leaf == pairs[0].0@ {
            0
        } else {
            1
        };
        bit + 2 * spec_path_index(
            hash_of(pairs[0].0@, pairs[0].1@),
            pairs.subrange(1, pairs.len() as int),
        )
    }
}

pub proof fn lemma_spec_path_index_bounds(leaf: Seq<u8>, pairs: Seq<(Fe, Fe)>)
    ensures
        0 <= spec_path_index(leaf, pairs) < pow2(pairs.len()),
    decreases pairs.len(),
{
    lemma2_to64();
    if pairs.len() > 0 {
        lemma_spec_path_index_bounds(
            hash_of(pairs[0].0@, pairs[0].1@),
            pairs.subrange(1, pairs.len() as int),
        );
        lemma_pow2_unfold(pairs.len());
    }
}

/// Wherever the branching walk reaches a root at all, the blend walk
/// reaches the same root: the two forms of the membership check agree.
pub proof fn lemma_blend_agrees_with_native(leaf: Seq<u8>, pairs: Seq<(Fe, Fe)>)
    requires
        spec_calc_root(leaf, pairs) is Some,
    ensures
        spec_blend_root(leaf, pairs) == spec_calc_root(leaf, pairs)->Some_0,
    decreases pairs.len(),
{
    if pairs.len() > 0 {
        lemma_blend_agrees_with_native(
            hash_of(pairs[0].0@, pairs[0].1@),
            pairs.subrange(1, pairs.len() as int),
        );
    }
}

impl Path {
    /// An all-zero path of the given length.
    pub fn empty(height: usize) -> (r: Path)
        ensures
            r.path@.len() == height,
            path_wf(r.path@),
            forall|k: int| 0 <= k < height
                ==> le_val((#[trigger] r.path@[k]).0@) == 0 && le_val(r.path@[k].1@) == 0,
    {
        let z = fe_zero();
        let mut path: Vec<(Fe, Fe)> = Vec::new();
        let mut i: usize = 0;
        while i < height
            invariant
                0 <= i <= height,
                path@.len() == i,
                fe_wf(z@) && le_val(z@) == 0,
                forall|k: int| 0 <= k < i
                    ==> (#[trigger] path@[k]).0 == z && path@[k].1 == z,
            decreases height - i,
        {
            path.push((z, z));
            i = i + 1;
        }
        Path { path }
    }

    /// Walks the path up from `leaf`, failing on the first level where the
    /// running value stands on neither side of the recorded pair.
    pub fn calculate_root(&self, leaf: &Fe, hasher: &PoseidonHash) -> (r: Result<Fe, MerkleError>)
        ensures
            match r {
                Ok(v) => spec_calc_root(leaf@, self.path@) == Some(v@),
                Err(e) => {
                    &&& spec_calc_root(leaf@, self.path@) is None
                    &&& (e == MerkleError::InvalidLeaf || e == MerkleError::InvalidPath)
                    &&& (e == MerkleError::InvalidLeaf <==> leaf_mismatch(leaf@, self.path@))
                },
            },
    {
        let n = self.path.len();
        if n > 0 {
            let (l0, r0) = self.path[0];
            if !fe_eq(leaf, &l0) && !fe_eq(leaf, &r0) {
                return Err(MerkleError::InvalidLeaf);
            }
        }
        let mut prev = *leaf;
        let mut i: usize = 0;
        proof {
            lemma2_to64();
            assert(self.path@.subrange(0, n as int) =~= self.path@);
        }
        while i < n
            invariant
                0 <= i <= n,
                n == self.path@.len(),
                !leaf_mismatch(leaf@, self.path@),
                spec_calc_root(leaf@, self.path@) == spec_calc_root(
                    prev@,
                    self.path@.subrange(i as int, n as int),
                ),
            decreases n - i,
        {
            let (l, r) = self.path[i];
            if !fe_eq(&prev, &l) && !fe_eq(&prev, &r) {
                proof {
                    assert(self.path@.subrange(i as int, n as int)[0] == self.path@[i as int]);
                }
                return Err(MerkleError::InvalidPath);
            }
            proof {
                let rest = self.path@.subrange(i as int, n as int);
                assert(rest[0] == self.path@[i as int]);
                assert(rest.subrange(1, rest.len() as int)
                    =~= self.path@.subrange(i as int + 1, n as int));
            }
            prev = hasher.hash(&l, &r);
            i = i + 1;
        }
        proof {
            assert(self.path@.subrange(n as int, n as int) =~= Seq::<(Fe, Fe)>::empty());
        }
        Ok(prev)
    }

    /// Whether the path carries `leaf` up to exactly `root_hash`.
    pub fn check_membership(&self, root_hash: &Fe, leaf: &Fe, hasher: &PoseidonHash) -> (r: Result<
        bool,
        MerkleError,
    >)
        ensures
            match r {
                Ok(b) => {
                    &&& spec_calc_root(leaf@, self.path@) is Some
                    &&& b == (spec_calc_root(leaf@, self.path@) == Some(root_hash@))
                },
                Err(e) => {
                    &&& spec_calc_root(leaf@, self.path@) is None
                    &&& (e == MerkleError::InvalidLeaf || e == MerkleError::InvalidPath)
                    &&& (e == MerkleError::InvalidLeaf <==> leaf_mismatch(leaf@, self.path@))
                },
            },
    {
        let computed = self.calculate_root(leaf, hasher)?;
        Ok(fe_eq(&computed, root_hash))
    }

    /// Reconstructs the numeric index of `leaf` from the sides on which the
    /// running value stands, after checking the path reaches `root_hash`.
    pub fn get_index(&self, root_hash: &Fe, leaf: &Fe, hasher: &PoseidonHash) -> (r: Result<
        Fe,
        MerkleError,
    >)
        requires
            self.path@.len() <= 62,
        ensures
            match r {
                Ok(v) => {
                    &&& spec_calc_root(leaf@, self.path@) == Some(root_hash@)
                    &&& le_val(v@) == spec_path_index(leaf@, self.path@)
                    &&& fe_wf(v@)
                },
                Err(e) => {
                    &&& spec_calc_root(leaf@, self.path@) != Some(root_hash@)
                    &&& (spec_calc_root(leaf@, self.path@) is Some
                        ==> e == MerkleError::InvalidLeaf)
                    &&& (spec_calc_root(leaf@, self.path@) is None ==> (e
                        == MerkleError::InvalidLeaf || e == MerkleError::InvalidPath) && (e
                        == MerkleError::InvalidLeaf <==> leaf_mismatch(leaf@, self.path@)))
                },
            },
    {
        let ok = self.check_membership(root_hash, leaf, hasher)?;
        if !ok {
            return Err(MerkleError::InvalidLeaf);
        }
        let n = self.path.len();
        let mut prev = *leaf;
        let mut index: u64 = 0;
        let mut twopower: u64 = 1;
        let mut i: usize = 0;
        proof {
            lemma2_to64();
            assert(self.path@.subrange(0, n as int) =~= self.path@);
        }
        while i < n
            invariant
                0 <= i <= n <= 62,
                n == self.path@.len(),
                twopower as int == pow2(i as nat),
                0 <= index < pow2(i as nat),
                spec_path_index(leaf@, self.path@) == index + pow2(i as nat) * spec_path_index(
                    prev@,
                    self.path@.subrange(i as int, n as int),
                ),
            decreases n - i,
        {
            proof {
                let rest = self.path@.subrange(i as int, n as int);
                assert(rest[0] == self.path@[i as int]);
                assert(rest.subrange(1, rest.len() as int)
                    =~= self.path@.subrange(i as int + 1, n as int));
                lemma_pow2_unfold((i + 1) as nat);
                lemma_pow2_strictly_increases(i as nat, 62);
                lemma2_to64_rest();
                lemma_spec_path_index_bounds(prev@, rest);
                let tail = self.path@.subrange(i as int + 1, n as int);
                let bit: int = if prev@ == rest[0].0@ { 0int } else { 1int };
                assert(spec_path_index(prev@, rest) == bit + 2 * spec_path_index(
                    hash_of(rest[0].0@, rest[0].1@), tail));
                assert(pow2(i as nat) * (bit + 2 * spec_path_index(
                    hash_of(rest[0].0@, rest[0].1@), tail))
                    == pow2(i as nat) * bit + pow2((i + 1) as nat) * spec_path_index(
                        hash_of(rest[0].0@, rest[0].1@), tail)) by (nonlinear_arith)
                    requires pow2((i + 1) as nat) == 2 * pow2(i as nat);
                lemma_spec_path_index_bounds(hash_of(rest[0].0@, rest[0].1@), tail);
                lemma_spec_path_index_bounds(leaf@, self.path@);
                lemma_pow2_strictly_increases(n as nat, 63);
                assert(pow2(i as nat) * spec_path_index(hash_of(rest[0].0@, rest[0].1@), tail)
                    >= 0) by (nonlinear_arith)
                    requires pow2(i as nat) >= 1, spec_path_index(
                        hash_of(rest[0].0@, rest[0].1@), tail) >= 0;
            }
            let (l, r) = self.path[i];
            if !fe_eq(&prev, &l) {
                index = index + twopower;
            }
            twopower = twopower * 2;
            prev = hasher.hash(&l, &r);
            i = i + 1;
        }
        proof {
            assert(self.path@.subrange(n as int, n as int) =~= Seq::<(Fe, Fe)>::empty());
            lemma_pow2_strictly_increases(n as nat, 63);
        }
        Ok(fe_from_u64(index))
    }
}

/// The select-and-blend form of a membership path: the value-level mirror
/// of the in-circuit gadget, which cannot branch and so blends both sides
/// through a computed boolean.
#[derive(Clone, Debug)]
pub struct PathVar {
    path: Vec<(Fe, Fe)>,
}

impl View for PathVar {
    type V = Seq<(Fe, Fe)>;

    closed spec fn view(&self) -> Seq<(Fe, Fe)> {
        self.path@
    }
}

impl PathVar {
    /// Allocates the gadget form of a native path.
    pub fn from_path(p: &Path) -> (r: PathVar)
        ensures
            r@ == p.path@,
    {
        let mut path: Vec<(Fe, Fe)> = Vec::new();
        let mut i: usize = 0;
        while i < p.path.len()
            invariant
                0 <= i <= p.path@.len(),
                path@ =~= p.path@.subrange(0, i as int),
            decreases p.path@.len() - i,
        {
            path.push(p.path[i]);
            i = i + 1;
        }
        proof {
            assert(p.path@.subrange(0, p.path@.len() as int) =~= p.path@);
        }
        PathVar { path }
    }

    /// The root computed by blending: at each level a boolean records
    /// whether the running value is the left element, and the hash inputs
    /// are selected through that boolean instead of branching.
    pub fn root_hash(&self, leaf: &Fe, hasher: &PoseidonHash) -> (r: Fe)
        ensures
            r@ == spec_blend_root(leaf@, self@),
    {
        let n = self.path.len();
        let mut prev = *leaf;
        let mut i: usize = 0;
        proof {
            lemma2_to64();
            assert(self@.subrange(0, n as int) =~= self@);
        }
        while i < n
            invariant
                0 <= i <= n,
                n == self@.len(),
                spec_blend_root(leaf@, self@) == spec_blend_root(
                    prev@,
                    self@.subrange(i as int, n as int),
                ),
            decreases n - i,
        {
            proof {
                let rest = self@.subrange(i as int, n as int);
                assert(rest[0] == self@[i as int]);
                assert(rest.subrange(1, rest.len() as int)
                    =~= self@.subrange(i as int + 1, n as int));
            }
            let (l, r) = self.path[i];
            let prev_is_left = fe_eq(&prev, &l);
            let left_operand = if prev_is_left { prev } else { l };
            let right_operand = if prev_is_left { r } else { prev };
            prev = hasher.hash(&left_operand, &right_operand);
            i = i + 1;
        }
        proof {
            assert(self@.subrange(n as int, n as int) =~= Seq::<(Fe, Fe)>::empty());
        }
        prev
    }

    /// Whether the blended root equals `root`.
    pub fn check_membership(&self, root: &Fe, leaf: &Fe, hasher: &PoseidonHash) -> (r: bool)
        ensures
            r == (root@ == spec_blend_root(leaf@, self@)),
    {
        let computed = self.root_hash(leaf, hasher);
        fe_eq(root, &computed)
    }

    /// The blended index reconstruction: adds `2^level` through a select
    /// instead of a branch.  Agrees with the branching reconstruction.
    pub fn get_index(&self, leaf: &Fe, hasher: &PoseidonHash) -> (r: Fe)
        requires
            self@.len() <= 62,
        ensures
            le_val(r@) == spec_path_index(leaf@, self@),
            fe_wf(r@),
    {
        let n = self.path.len();
        let mut prev = *leaf;
        let mut index: u64 = 0;
        let mut twopower: u64 = 1;
        let mut i: usize = 0;
        proof {
            lemma2_to64();
            assert(self@.subrange(0, n as int) =~= self@);
        }
        while i < n
            invariant
                0 <= i <= n <= 62,
                n == self@.len(),
                twopower as int == pow2(i as nat),
                0 <= index < pow2(i as nat),
                spec_path_index(leaf@, self@) == index + pow2(i as nat) * spec_path_index(
                    prev@,
                    self@.subrange(i as int, n as int),
                ),
            decreases n - i,
        {
            proof {
                let rest = self@.subrange(i as int, n as int);
                assert(rest[0] == self@[i as int]);
                assert(rest.subrange(1, rest.len() as int)
                    =~= self@.subrange(i as int + 1, n as int));
                lemma_pow2_unfold((i + 1) as nat);
                lemma_pow2_strictly_increases(i as nat, 62);
                lemma2_to64_rest();
                let tail = self@.subrange(i as int + 1, n as int);
                let bit: int = if prev@ == rest[0].0@ { 0int } else { 1int };
                assert(spec_path_index(prev@, rest) == bit + 2 * spec_path_index(
                    hash_of(rest[0].0@, rest[0].1@), tail));
                assert(pow2(i as nat) * (bit + 2 * spec_path_index(
                    hash_of(rest[0].0@, rest[0].1@), tail))
                    == pow2(i as nat) * bit + pow2((i + 1) as nat) * spec_path_index(
                        hash_of(rest[0].0@, rest[0].1@), tail)) by (nonlinear_arith)
                    requires pow2((i + 1) as nat) == 2 * pow2(i as nat);
                lemma_spec_path_index_bounds(hash_of(rest[0].0@, rest[0].1@), tail);
                assert(pow2(i as nat) * spec_path_index(hash_of(rest[0].0@, rest[0].1@), tail)
                    >= 0) by (nonlinear_arith)
                    requires pow2(i as nat) >= 1, spec_path_index(
                        hash_of(rest[0].0@, rest[0].1@), tail) >= 0;
            }
            let (l, r) = self.path[i];
            let prev_is_left = fe_eq(&prev, &l);
            if !prev_is_left {
                index = index + twopower;
            }
            twopower = twopower * 2;
            prev = hasher.hash(&l, &r);
            i = i + 1;
        }
        proof {
            assert(self@.subrange(n as int, n as int) =~= Seq::<(Fe, Fe)>::empty());
            lemma_spec_path_index_bounds(leaf@, self@);
            lemma_pow2_strictly_increases(n as nat, 63);
        }
        fe_from_u64(index)
    }
}

/// The value standing at node `j`: the stored value where present, the
/// level's cached default otherwise.  An unpopulated root has no cached
/// default of its own; it stands for the self-hash of the topmost default,
/// which a full walk from the leaf level reaches.
pub open spec fn node_value(m: Map<u64, Fe>, eh: Seq<Fe>, h: nat, j: u64) -> Seq<u8> {
    if m.contains_key(j) {
        m[j]@
    } else if node_depth(j) == 0 {
        hash_of(eh[h - 1]@, eh[h - 1]@)
    } else {
        eh[(h - node_depth(j)) as int]@
    }
}

/// A stored non-leaf node holds the hash of its two children's values.
pub open spec fn child_ok(m: Map<u64, Fe>, eh: Seq<Fe>, h: nat, i: u64) -> bool {
    (m.contains_key(i) && node_depth(i) < h) ==> m[i]@ == hash_of(
        node_value(m, eh, h, (2 * i + 1) as u64),
        node_value(m, eh, h, (2 * i + 2) as u64),
    )
}

/// A stored node below the root has its parent stored.
pub open spec fn parent_ok(m: Map<u64, Fe>, i: u64) -> bool {
    (m.contains_key(i) && i != 0) ==> m.contains_key(((i - 1) / 2) as u64)
}

/// The cached defaults: one per level, each the self-hash of the previous.
pub open spec fn defaults_wf(eh: Seq<Fe>, h: nat) -> bool {
    &&& eh.len() == h
    &&& (forall|l: int| 0 <= l < h ==> fe_wf((#[trigger] eh[l])@))
    &&& (forall|l: int| 0 <= l && l + 1 < h ==> (#[trigger] eh[l + 1])@ == hash_of(eh[l]@, eh[l]@))
}

/// Every stored node lies within the tree and holds a reduced encoding.
pub open spec fn entries_wf(m: Map<u64, Fe>, h: nat) -> bool {
    forall|i: u64| #[trigger] m.contains_key(i) ==> node_depth(i) <= h && fe_wf(m[i]@)
}

/// The whole-tree invariant.
pub open spec fn smt_wf(m: Map<u64, Fe>, eh: Seq<Fe>, h: nat) -> bool {
    &&& 1 <= h <= 62
    &&& defaults_wf(eh, h)
    &&& entries_wf(m, h)
    &&& (forall|i: u64| #[trigger] child_ok(m, eh, h, i))
    &&& (forall|i: u64| #[trigger] parent_ok(m, i))
}

/// In a well-formed tree, the value of any non-leaf node is the hash of its
/// children's values, whether or not the nodes are stored.
pub proof fn lemma_parent_value(m: Map<u64, Fe>, eh: Seq<Fe>, h: nat, p: u64)
    requires
        smt_wf(m, eh, h),
        node_depth(p) < h,
        p < 0x4000_0000_0000_0000,
    ensures
        node_value(m, eh, h, p) == hash_of(
            node_value(m, eh, h, (2 * p + 1) as u64),
            node_value(m, eh, h, (2 * p + 2) as u64),
        ),
{
    let left = (2 * p + 1) as u64;
    let right = (2 * p + 2) as u64;
    lemma_child_depth(p);
    let d = node_depth(p);
    if m.contains_key(p) {
        assert(child_ok(m, eh, h, p));
    } else {
        assert(parent_ok(m, left));
        assert(parent_ok(m, right));
        assert((((left - 1) / 2) as u64) == p);
        assert((((right - 1) / 2) as u64) == p);
        assert(!m.contains_key(left));
        assert(!m.contains_key(right));
        assert(node_value(m, eh, h, left) == eh[(h - d - 1) as int]@);
        assert(node_value(m, eh, h, right) == eh[(h - d - 1) as int]@);
        if d == 0 {
            assert(node_value(m, eh, h, p) == hash_of(eh[h - 1]@, eh[h - 1]@));
        } else {
            let l = (h - d - 1) as int;
            assert(eh[l + 1]@ == hash_of(eh[l]@, eh[l]@));
        }
    }
}

/// Extending a successful walk by one pair containing its running value.
pub proof fn lemma_calc_root_snoc(leaf: Seq<u8>, pairs: Seq<(Fe, Fe)>, pair: (Fe, Fe), v: Seq<u8>)
    requires
        spec_calc_root(leaf, pairs) == Some(v),
        v == pair.0@ || v == pair.1@,
    ensures
        spec_calc_root(leaf, pairs.push(pair)) == Some(hash_of(pair.0@, pair.1@)),
    decreases pairs.len(),
{
    if pairs.len() == 0 {
        assert(pairs.push(pair)[0] == pair);
        assert(pairs.push(pair).subrange(1, 1) =~= Seq::<(Fe, Fe)>::empty());
        assert(spec_calc_root(hash_of(pair.0@, pair.1@), Seq::<(Fe, Fe)>::empty())
            == Some(hash_of(pair.0@, pair.1@)));
    } else {
        assert(pairs.push(pair)[0] == pairs[0]);
        assert(pairs.push(pair).subrange(1, pairs.len() as int + 1)
            =~= pairs.subrange(1, pairs.len() as int).push(pair));
        lemma_calc_root_snoc(
            hash_of(pairs[0].0@, pairs[0].1@),
            pairs.subrange(1, pairs.len() as int),
            pair,
            v,
        );
    }
}

/// The entry standing at leaf slot `i` of the bottom level, if stored.
pub open spec fn leaf_entry(m: Map<u64, Fe>, h: nat, i: int) -> Option<Fe> {
    let k = (pow2(h) - 1 + i) as u64;
    if m.contains_key(k) {
        Some(m[k])
    } else {
        None
    }
}

/// The last value listed for slot `i` in a batch, if any: later entries of
/// a batch overwrite earlier ones.
pub open spec fn assoc_last(s: Seq<(u32, Fe)>, i: int) -> Option<Fe>
    decreases s.len(),
{
    if s.len() == 0 {
        None
    } else if s[s.len() - 1].0 == i {
        Some(s[s.len() - 1].1)
    } else {
        assoc_last(s.subrange(0, s.len() - 1), i)
    }
}

/// Appending a batch entry: the appended pair decides its own index, and
/// every other index keeps its previous last value.
pub proof fn lemma_assoc_last_snoc(s: Seq<(u32, Fe)>, x: (u32, Fe), i: int)
    ensures
        assoc_last(s.push(x), i) == (if x.0 == i {
            Some(x.1)
        } else {
            assoc_last(s, i)
        }),
{
    assert(s.push(x).subrange(0, s.len() as int) =~= s);
    assert(s.push(x)[s.len() as int] == x);
}

/// The default value of a whole empty subtree `l` levels high: `l`
/// self-hashings of the empty leaf.
pub open spec fn spec_defaults(empty_leaf: Seq<u8>, l: nat) -> Seq<u8>
    decreases l,
{
    if l == 0 {
        empty_leaf
    } else {
        hash_of(
            spec_defaults(empty_leaf, (l - 1) as nat),
            spec_defaults(empty_leaf, (l - 1) as nat),
        )
    }
}

/// The Merkle root of the complete subtree `level` levels high standing at
/// horizontal position `pos` of its level, over the dense bottom row
/// `leaves` extended with the empty leaf.
pub open spec fn spec_subtree_root(
    leaves: Seq<Fe>,
    empty_leaf: Seq<u8>,
    level: nat,
    pos: int,
) -> Seq<u8>
    decreases level,
{
    if level == 0 {
        if 0 <= pos < leaves.len() {
            leaves[pos]@
        } else {
            empty_leaf
        }
    } else {
        hash_of(
            spec_subtree_root(leaves, empty_leaf, (level - 1) as nat, 2 * pos),
            spec_subtree_root(leaves, empty_leaf, (level - 1) as nat, 2 * pos + 1),
        )
    }
}

/// The cached level defaults are the iterated self-hashes of the first.
proof fn lemma_defaults_match(eh: Seq<Fe>, h: nat, l: int)
    requires
        defaults_wf(eh, h),
        0 <= l < h,
    ensures
        eh[l]@ == spec_defaults(eh[0]@, l as nat),
    decreases l,
{
    if l > 0 {
        lemma_defaults_match(eh, h, l - 1);
        assert(eh[(l - 1) + 1]@ == hash_of(eh[l - 1]@, eh[l - 1]@));
    }
}

/// In a well-formed tree whose bottom level is the dense list `leaves`,
/// the value standing at any node is the Merkle root of the complete
/// subtree under it.
proof fn lemma_node_value_subtree(m: Map<u64, Fe>, eh: Seq<Fe>, h: nat, leaves: Seq<Fe>, j: u64)
    requires
        smt_wf(m, eh, h),
        node_depth(j) <= h,
        leaves.len() <= pow2(h),
        forall|i: int| 0 <= i < pow2(h) ==> #[trigger] leaf_entry(m, h, i) == (if 0 <= i
            < leaves.len() {
            Some(leaves[i])
        } else {
            None
        }),
    ensures
        node_value(m, eh, h, j) == spec_subtree_root(
            leaves,
            eh[0]@,
            (h - node_depth(j)) as nat,
            j - (pow2(node_depth(j)) - 1),
        ),
    decreases h - node_depth(j),
{
    let d = node_depth(j);
    lemma_depth_range(j);
    lemma_pow2_strictly_increases(d, 63);
    lemma_pow2_strictly_increases(d + 1, 64);
    lemma2_to64();
    lemma2_to64_rest();
    let pos = j - (pow2(d) - 1);
    if d == h {
        assert(0 <= pos < pow2(h));
        assert((pow2(h) - 1 + pos) as u64 == j);
        assert(leaf_entry(m, h, pos) == (if 0 <= pos < leaves.len() {
            Some(leaves[pos])
        } else {
            None
        }));
        if m.contains_key(j) {
            assert(leaf_entry(m, h, pos) == Some(m[j]));
        } else {
            assert(leaf_entry(m, h, pos) is None);
            assert(h >= 1);
            assert(node_value(m, eh, h, j) == eh[0]@);
        }
    } else {
        lemma_parent_value(m, eh, h, j);
        lemma_child_depth(j);
        let left = (2 * j + 1) as u64;
        let right = (2 * j + 2) as u64;
        lemma_node_value_subtree(m, eh, h, leaves, left);
        lemma_node_value_subtree(m, eh, h, leaves, right);
        lemma_pow2_unfold(d + 1);
        assert(left - (pow2(d + 1) - 1) == 2 * pos);
        assert(right - (pow2(d + 1) - 1) == 2 * pos + 1);
    }
}

/// In a tree built over a dense leaf list, every bottom slot stands for
/// its listed value (the empty leaf beyond the list), the walked root is
/// the Merkle root of that list, and an unpopulated tree's committed root
/// is the topmost cached default.
pub proof fn lemma_dense_tree_root(t: SparseMerkleTree, leaves: Seq<Fe>)
    requires
        t.wf(),
        leaves.len() <= pow2(t.height as nat),
        forall|i: int| 0 <= i < pow2(t.height as nat) ==> #[trigger] leaf_entry(
            t.tree@,
            t.height as nat,
            i,
        ) == (if 0 <= i < leaves.len() {
            Some(leaves[i])
        } else {
            None
        }),
    ensures
        node_value(t.tree@, t.empty_hashes@, t.height as nat, 0u64) == spec_subtree_root(
            leaves,
            t.empty_hashes@[0]@,
            t.height as nat,
            0,
        ),
        forall|i: int| 0 <= i < pow2(t.height as nat) ==> node_value(
            t.tree@,
            t.empty_hashes@,
            t.height as nat,
            (pow2(t.height as nat) - 1 + i) as u64,
        ) == #[trigger] spec_subtree_root(leaves, t.empty_hashes@[0]@, 0, i),
        !t.tree@.contains_key(0u64) ==> t.spec_root() == spec_defaults(
            t.empty_hashes@[0]@,
            (t.height - 1) as nat,
        ),
{
    let hn = t.height as nat;
    lemma_node_value_subtree(t.tree@, t.empty_hashes@, hn, leaves, 0u64);
    assert(node_depth(0u64) == 0);
    lemma2_to64();
    assert forall|i: int| 0 <= i < pow2(hn) implies node_value(
        t.tree@,
        t.empty_hashes@,
        hn,
        (pow2(hn) - 1 + i) as u64,
    ) == #[trigger] spec_subtree_root(leaves, t.empty_hashes@[0]@, 0, i) by {
        lemma_pow2_strictly_increases(hn, 63);
        lemma_pow2_unfold(hn + 1);
        lemma_pow2_strictly_increases(hn + 1, 64);
        lemma2_to64_rest();
        let k = (pow2(hn) - 1 + i) as u64;
        lemma_depth_of_range(k, hn);
        lemma_node_value_subtree(t.tree@, t.empty_hashes@, hn, leaves, k);
    }
    if !t.tree@.contains_key(0u64) {
        lemma_defaults_match(t.empty_hashes@, hn, hn as int - 1);
    }
}

/// The pair a generated membership path records at one level, in tree
/// order: the walked slot's ancestor at that level and its sibling, each
/// standing for its stored value or the level default, the ancestor on the
/// left where its position is even and on the right where it is odd.
pub open spec fn level_pair_ok(
    m: Map<u64, Fe>,
    eh: Seq<Fe>,
    h: nat,
    index: u64,
    l: int,
    pair: (Fe, Fe),
) -> bool {
    let pos = (index as int) / (pow2(l as nat) as int);
    let node = (pow2((h - l) as nat) - 1 + pos) as u64;
    if pos % 2 == 0 {
        pair.0@ == node_value(m, eh, h, node) && pair.1@ == node_value(
            m,
            eh,
            h,
            (node + 1) as u64,
        )
    } else {
        pair.0@ == node_value(m, eh, h, (node - 1) as u64) && pair.1@ == node_value(m, eh, h, node)
    }
}

/// A sparse Merkle tree: stored nodes, the height, and one cached default
/// hash per level, each formed by self-hashing the previous level's.
#[derive(Debug)]
pub struct SparseMerkleTree {
    /// Stored nodes, keyed by binary-heap index.
    pub tree: BTreeMap<u64, Fe>,
    /// The height: leaves sit at this depth.
    pub height: usize,
    /// Default hashes, one per level, `empty_hashes[0]` being the empty leaf.
    pub empty_hashes: Vec<Fe>,
}

impl SparseMerkleTree {
    /// The whole-tree invariant, established by `new` and preserved by
    /// `insert_batch`.
    pub open spec fn wf(&self) -> bool {
        smt_wf(self.tree@, self.empty_hashes@, self.height as nat)
    }

    /// The committed root: the stored root node, or the topmost cached
    /// default where nothing was ever inserted.
    pub open spec fn spec_root(&self) -> Seq<u8> {
        if self.tree@.contains_key(0) {
            self.tree@[0]@
        } else {
            self.empty_hashes@[self.height - 1]@
        }
    }

    /// Inserts one leaf and recomputes the hashes along its path to the
    /// root, leaving every other stored node untouched.
    fn insert_leaf(&mut self, index: u64, v: Fe, hasher: &PoseidonHash)
        requires
            old(self).wf(),
            index < pow2(old(self).height as nat),
            fe_wf(v@),
        ensures
            final(self).wf(),
            final(self).height == old(self).height,
            final(self).empty_hashes@ == old(self).empty_hashes@,
            final(self).tree@.contains_key(0u64),
            leaf_entry(final(self).tree@, old(self).height as nat, index as int) == Some(v),
            forall|i: int| 0 <= i < pow2(old(self).height as nat) && i != index
                ==> leaf_entry(final(self).tree@, old(self).height as nat, i)
                    == leaf_entry(old(self).tree@, old(self).height as nat, i),
    {
        let h = self.height;
        let ghost hn = h as nat;
        let ghost eh = self.empty_hashes@;
        proof {
            lemma_pow2_strictly_increases(hn, 63);
            lemma2_to64();
            lemma2_to64_rest();
        }
        let leaf_key = pow2_u64(h) - 1 + index;
        proof {
            lemma_pow2_unfold(hn + 1);
            lemma_depth_of_range(leaf_key, hn);
        }
        self.tree.insert(leaf_key, v);
        proof {
            lemma_insert_keeps_tree_shape(old(self).tree@, self.tree@, eh, hn, leaf_key, v);
        }
        let mut cur = leaf_key;
        let mut level: usize = 0;
        while level < h
            invariant
                self.height == h,
                self.empty_hashes@ == eh,
                1 <= h <= 62,
                hn == h as nat,
                index < pow2(hn),
                level <= h,
                defaults_wf(eh, hn),
                entries_wf(self.tree@, hn),
                node_depth(cur) == hn - level,
                self.tree@.contains_key(cur),
                forall|i: u64| i != spec_parent(cur) || cur == 0
                    ==> #[trigger] child_ok(self.tree@, eh, hn, i),
                forall|i: u64| i != cur ==> #[trigger] parent_ok(self.tree@, i),
                leaf_entry(self.tree@, hn, index as int) == Some(v),
                forall|i: int| 0 <= i < pow2(hn) && i != index
                    ==> leaf_entry(self.tree@, hn, i) == leaf_entry(old(self).tree@, hn, i),
            decreases h - level,
        {
            proof {
                lemma_depth_range(cur);
                lemma_pow2_strictly_increases(node_depth(cur), 63);
                lemma_pow2_strictly_increases(node_depth(cur) + 1, 64);
                lemma2_to64();
                lemma2_to64_rest();
            }
            let parent = (cur - 1) / 2;
            proof {
                assert(node_depth(cur) >= 1);
                assert(cur != 0);
                assert(node_depth(parent) == hn - level - 1) by {
                    assert(node_depth(cur) == 1 + node_depth(((cur - 1) / 2) as u64));
                }
                lemma_depth_range(parent);
                lemma_pow2_strictly_increases(node_depth(parent) + 1, 63);
            }
            let left_index = 2 * parent + 1;
            let right_index = 2 * parent + 2;
            let dh = self.empty_hashes[level];
            let left = match self.tree.get(&left_index) {
                Some(x) => *x,
                None => dh,
            };
            let right = match self.tree.get(&right_index) {
                Some(x) => *x,
                None => dh,
            };
            proof {
                lemma_child_depth(parent);
                assert(node_depth(left_index) == hn - level);
                assert(node_depth(right_index) == hn - level);
                assert(left@ == node_value(self.tree@, eh, hn, left_index));
                assert(right@ == node_value(self.tree@, eh, hn, right_index));
            }
            let hashed = hasher.hash(&left, &right);
            let ghost m_before = self.tree@;
            self.tree.insert(parent, hashed);
            proof {
                lemma_walk_insert_step(m_before, self.tree@, eh, hn, cur, parent, hashed);
                lemma_pow2_unfold(hn + 1);
                lemma_pow2_strictly_increases(hn, 63);
                lemma_pow2_strictly_increases(hn + 1, 64);
                lemma_depth_of_range((pow2(hn) - 1 + index) as u64, hn);
                assert forall|i: int| 0 <= i < pow2(hn) implies
                    leaf_entry(self.tree@, hn, i) == leaf_entry(m_before, hn, i) by {
                    lemma_depth_of_range((pow2(hn) - 1 + i) as u64, hn);
                }
            }
            cur = parent;
            level = level + 1;
        }
        proof {
            assert(node_depth(cur) == 0);
            lemma_depth_range(cur);
            lemma2_to64();
            assert(cur == 0);
        }
    }

    /// Inserts a batch of `(leaf index, value)` pairs, recomputing the
    /// stored hashes along each affected path; later entries for one index
    /// overwrite earlier ones.
    pub fn insert_batch(&mut self, leaves: &Vec<(u32, Fe)>, hasher: &PoseidonHash)
        requires
            old(self).wf(),
            forall|k: int| 0 <= k < leaves@.len()
                ==> ((#[trigger] leaves@[k]).0 as int) < pow2(old(self).height as nat),
            forall|k: int| 0 <= k < leaves@.len() ==> fe_wf((#[trigger] leaves@[k]).1@),
        ensures
            final(self).wf(),
            final(self).height == old(self).height,
            final(self).empty_hashes@ == old(self).empty_hashes@,
            leaves@.len() == 0 ==> final(self).tree@ == old(self).tree@,
            leaves@.len() > 0 ==> final(self).tree@.contains_key(0u64),
            forall|i: int| 0 <= i < pow2(old(self).height as nat)
                ==> #[trigger] leaf_entry(final(self).tree@, old(self).height as nat, i) == (
                if assoc_last(leaves@, i) is Some {
                    assoc_last(leaves@, i)
                } else {
                    leaf_entry(old(self).tree@, old(self).height as nat, i)
                }),
    {
        let ghost hn = old(self).height as nat;
        let ghost m0 = old(self).tree@;
        let mut j: usize = 0;
        proof {
            assert(leaves@.subrange(0, 0) =~= Seq::<(u32, Fe)>::empty());
        }
        while j < leaves.len()
            invariant
                0 <= j <= leaves@.len(),
                self.wf(),
                self.height == old(self).height,
                hn == old(self).height as nat,
                self.empty_hashes@ == old(self).empty_hashes@,
                forall|k: int| 0 <= k < leaves@.len()
                    ==> ((#[trigger] leaves@[k]).0 as int) < pow2(hn),
                forall|k: int| 0 <= k < leaves@.len() ==> fe_wf((#[trigger] leaves@[k]).1@),
                forall|i: int| 0 <= i < pow2(hn)
                    ==> #[trigger] leaf_entry(self.tree@, hn, i) == (
                    if assoc_last(leaves@.subrange(0, j as int), i) is Some {
                        assoc_last(leaves@.subrange(0, j as int), i)
                    } else {
                        leaf_entry(m0, hn, i)
                    }),
                j == 0 ==> self.tree@ == old(self).tree@,
                j > 0 ==> self.tree@.contains_key(0u64),
                m0 == old(self).tree@,
            decreases leaves@.len() - j,
        {
            let (idx, v) = leaves[j];
            let ghost m_before = self.tree@;
            self.insert_leaf(idx as u64, v, hasher);
            proof {
                assert(leaves@.subrange(0, j as int + 1)
                    =~= leaves@.subrange(0, j as int).push(leaves@[j as int]));
                assert forall|i: int| 0 <= i < pow2(hn) implies
                    #[trigger] leaf_entry(self.tree@, hn, i) == (
                    if assoc_last(leaves@.subrange(0, j as int + 1), i) is Some {
                        assoc_last(leaves@.subrange(0, j as int + 1), i)
                    } else {
                        leaf_entry(m0, hn, i)
                    }) by {
                    lemma_assoc_last_snoc(
                        leaves@.subrange(0, j as int),
                        leaves@[j as int],
                        i,
                    );
                }
            }
            j = j + 1;
        }
        proof {
            assert(leaves@.subrange(0, leaves@.len() as int) =~= leaves@);
        }
    }

    /// Builds a tree of the given height over a batch of indexed leaves,
    /// deriving one default hash per level by self-hashing `empty_leaf`.
    pub fn new(
        leaves: &Vec<(u32, Fe)>,
        hasher: &PoseidonHash,
        empty_leaf: &Fe,
        height: usize,
    ) -> (r: Result<SparseMerkleTree, MerkleError>)
        requires
            1 <= height <= 62,
            fe_wf(empty_leaf@),
            forall|k: int| 0 <= k < leaves@.len() ==> fe_wf((#[trigger] leaves@[k]).1@),
        ensures
            match r {
                Ok(t) => {
                    &&& t.wf()
                    &&& t.height == height
                    &&& t.empty_hashes@.len() == height
                    &&& t.empty_hashes@[0]@ == empty_leaf@
                    &&& leaves@.len() <= pow2(height as nat)
                    &&& (t.tree@.contains_key(0u64) <==> leaves@.len() > 0)
                    &&& (forall|k: int| 0 <= k < leaves@.len()
                        ==> ((#[trigger] leaves@[k]).0 as int) < pow2(height as nat))
                    &&& (forall|i: int| 0 <= i < pow2(height as nat)
                        ==> #[trigger] leaf_entry(t.tree@, height as nat, i) == assoc_last(
                            leaves@,
                            i,
                        ))
                },
                Err(e) => {
                    &&& (e == MerkleError::Capacity <==> leaves@.len() > pow2(height as nat))
                    &&& (e == MerkleError::Capacity || e == MerkleError::IndexOutOfRange)
                    &&& (e == MerkleError::IndexOutOfRange ==> exists|k: int|
                        0 <= k < leaves@.len() && ((#[trigger] leaves@[k]).0 as int) >= pow2(
                            height as nat,
                        ))
                },
            },
    {
        let cap = pow2_u64(height);
        if (leaves.len() as u64) > cap {
            return Err(MerkleError::Capacity);
        }
        let mut k: usize = 0;
        while k < leaves.len()
            invariant
                0 <= k <= leaves@.len(),
                cap as int == pow2(height as nat),
                leaves@.len() <= pow2(height as nat),
                1 <= height <= 62,
                forall|q: int| 0 <= q < k ==> ((#[trigger] leaves@[q]).0 as int) < pow2(
                    height as nat,
                ),
            decreases leaves@.len() - k,
        {
            if leaves[k].0 as u64 >= cap {
                proof {
                    assert(0 <= k < leaves@.len() && ((leaves@[k as int]).0 as int) >= pow2(
                        height as nat,
                    ));
                }
                return Err(MerkleError::IndexOutOfRange);
            }
            k = k + 1;
        }
        let mut eh: Vec<Fe> = Vec::new();
        eh.push(*empty_leaf);
        let mut l: usize = 1;
        while l < height
            invariant
                1 <= l <= height,
                eh@.len() == l,
                eh@[0] == *empty_leaf,
                fe_wf(empty_leaf@),
                forall|q: int| 0 <= q < l ==> fe_wf((#[trigger] eh@[q])@),
                forall|q: int| 0 <= q && q + 1 < l ==> (#[trigger] eh@[q + 1])@ == hash_of(
                    eh@[q]@,
                    eh@[q]@,
                ),
            decreases height - l,
        {
            let prev = eh[l - 1];
            let hh = hasher.hash(&prev, &prev);
            eh.push(hh);
            l = l + 1;
        }
        let mut smt = SparseMerkleTree { tree: BTreeMap::new(), height, empty_hashes: eh };
        proof {
            assert(smt.tree@ =~= Map::<u64, Fe>::empty());
            assert(entries_wf(smt.tree@, height as nat)) by {
                assert forall|i: u64| #[trigger] smt.tree@.contains_key(i) implies node_depth(i)
                    <= height as nat && fe_wf(smt.tree@[i]@) by {}
            }
            assert forall|i: u64| #[trigger] child_ok(
                smt.tree@,
                smt.empty_hashes@,
                height as nat,
                i,
            ) by {}
            assert forall|i: u64| #[trigger] parent_ok(smt.tree@, i) by {}
            assert forall|i: int| 0 <= i < pow2(height as nat) implies #[trigger] leaf_entry(
                smt.tree@,
                height as nat,
                i,
            ) is None by {}
        }
        smt.insert_batch(leaves, hasher);
        Ok(smt)
    }

    /// Builds a tree over a dense leaf vector, slot `i` taking `leaves[i]`.
    pub fn new_sequential(
        leaves: &Vec<Fe>,
        hasher: &PoseidonHash,
        empty_leaf: &Fe,
        height: usize,
    ) -> (r: Result<SparseMerkleTree, MerkleError>)
        requires
            1 <= height <= 62,
            leaves@.len() <= 0xffff_ffff,
            fe_wf(empty_leaf@),
            forall|k: int| 0 <= k < leaves@.len() ==> fe_wf((#[trigger] leaves@[k])@),
        ensures
            match r {
                Ok(t) => {
                    &&& t.wf()
                    &&& t.height == height
                    &&& t.empty_hashes@.len() == height
                    &&& t.empty_hashes@[0]@ == empty_leaf@
                    &&& leaves@.len() <= pow2(height as nat)
                    &&& (t.tree@.contains_key(0u64) <==> leaves@.len() > 0)
                    &&& (forall|i: int| 0 <= i < pow2(height as nat)
                        ==> #[trigger] leaf_entry(t.tree@, height as nat, i) == (
                        if 0 <= i < leaves@.len() {
                            Some(leaves@[i])
                        } else {
                            None
                        }))
                },
                Err(e) => {
                    &&& e == MerkleError::Capacity
                    &&& leaves@.len() > pow2(height as nat)
                },
            },
    {
        let mut pairs: Vec<(u32, Fe)> = Vec::new();
        let mut i: usize = 0;
        while i < leaves.len()
            invariant
                0 <= i <= leaves@.len() <= 0xffff_ffff,
                pairs@.len() == i,
                forall|k: int| 0 <= k < i ==> (#[trigger] pairs@[k]).0 == k && pairs@[k].1
                    == leaves@[k],
                forall|q: int| #[trigger] assoc_last(pairs@, q) == (
                    if 0 <= q < i {
                        Some(leaves@[q])
                    } else {
                        None
                    }),
            decreases leaves@.len() - i,
        {
            let ghost pairs0 = pairs@;
            pairs.push((i as u32, leaves[i]));
            proof {
                assert forall|q: int| #[trigger] assoc_last(pairs@, q) == (
                    if 0 <= q < i + 1 {
                        Some(leaves@[q])
                    } else {
                        None
                    }) by {
                    lemma_assoc_last_snoc(pairs0, (i as u32, leaves@[i as int]), q);
                }
            }
            i = i + 1;
        }
        let r = Self::new(&pairs, hasher, empty_leaf, height);
        match r {
            Ok(t) => Ok(t),
            Err(e) => {
                proof {
                    if e == MerkleError::IndexOutOfRange {
                        let k = choose|k: int|
                            0 <= k < pairs@.len() && ((#[trigger] pairs@[k]).0 as int) >= pow2(
                                height as nat,
                            );
                        assert(pairs@[k].0 == k);
                    }
                }
                Err(e)
            },
        }
    }

    /// The committed root: the stored root node, or the final cached
    /// default hash where nothing was ever inserted.
    pub fn root(&self) -> (r: Fe)
        requires
            self.wf(),
        ensures
            r@ == self.spec_root(),
            fe_wf(r@),
    {
        match self.tree.get(&0u64) {
            Some(x) => {
                proof {
                    assert(self.tree@.contains_key(0u64));
                }
                *x
            },
            None => self.empty_hashes[self.height - 1],
        }
    }

    /// Builds the sibling path from leaf slot `index` up to the root: at
    /// each level the current node's and its sibling's values are recorded
    /// in tree order, a level default standing in for any absent node.  The
    /// recorded path carries the slot's current value to the stored root.
    #[verifier::rlimit(60)]
    pub fn generate_membership_proof(&self, index: u64) -> (p: Path)
        requires
            self.wf(),
            index < pow2(self.height as nat),
        ensures
            p.path@.len() == self.height,
            path_wf(p.path@),
            spec_calc_root(
                node_value(
                    self.tree@,
                    self.empty_hashes@,
                    self.height as nat,
                    (pow2(self.height as nat) - 1 + index) as u64,
                ),
                p.path@,
            ) == Some(
                node_value(self.tree@, self.empty_hashes@, self.height as nat, 0u64),
            ),
            self.tree@.contains_key(0u64) ==> node_value(
                self.tree@,
                self.empty_hashes@,
                self.height as nat,
                0u64,
            ) == self.spec_root(),
            forall|l: int| 0 <= l < self.height ==> level_pair_ok(
                self.tree@,
                self.empty_hashes@,
                self.height as nat,
                index,
                l,
                #[trigger] p.path@[l],
            ),
    {
        let h = self.height;
        let ghost hn = h as nat;
        let ghost m = self.tree@;
        let ghost eh = self.empty_hashes@;
        proof {
            lemma_pow2_unfold(hn + 1);
            lemma_pow2_strictly_increases(hn, 63);
            lemma_pow2_strictly_increases(hn + 1, 64);
            lemma2_to64();
            lemma2_to64_rest();
        }
        let mut cur: u64 = pow2_u64(h) - 1 + index;
        let ghost leafv = node_value(m, eh, hn, cur);
        proof {
            lemma_depth_of_range(cur, hn);
            vstd::arithmetic::div_mod::lemma_div_basics(index as int);
        }
        let mut pairs: Vec<(Fe, Fe)> = Vec::new();
        let mut level: usize = 0;
        while level < h
            invariant
                self.height == h,
                hn == h as nat,
                m == self.tree@,
                eh == self.empty_hashes@,
                smt_wf(m, eh, hn),
                0 <= level <= h,
                pairs@.len() == level,
                node_depth(cur) == hn - level,
                index < pow2(hn),
                cur as int == pow2((hn - level) as nat) - 1 + (index as int) / (pow2(
                    level as nat,
                ) as int),
                path_wf(pairs@),
                spec_calc_root(leafv, pairs@) == Some(node_value(m, eh, hn, cur)),
                forall|q: int| 0 <= q < level ==> level_pair_ok(
                    m,
                    eh,
                    hn,
                    index,
                    q,
                    #[trigger] pairs@[q],
                ),
            decreases h - level,
        {
            proof {
                lemma_depth_range(cur);
                lemma_pow2_strictly_increases(node_depth(cur), 63);
                lemma_pow2_strictly_increases(node_depth(cur) + 1, 64);
                lemma2_to64();
                lemma2_to64_rest();
                assert(cur != 0);
            }
            let parent = (cur - 1) / 2;
            proof {
                assert(node_depth(parent) == hn - level - 1) by {
                    assert(node_depth(cur) == 1 + node_depth(((cur - 1) / 2) as u64));
                }
                lemma_depth_range(parent);
                lemma_pow2_strictly_increases(node_depth(parent), 62);
                lemma_pow2_strictly_increases(node_depth(parent) + 1, 63);
            }
            let sibling = if cur % 2 == 1 {
                cur + 1
            } else {
                cur - 1
            };
            proof {
                lemma_child_depth(parent);
                if cur % 2 == 1 {
                    assert(cur == 2 * parent + 1);
                    assert(sibling == 2 * parent + 2);
                } else {
                    assert(cur == 2 * parent + 2);
                    assert(sibling == 2 * parent + 1);
                }
                assert(node_depth(sibling) == hn - level);
            }
            let dh = self.empty_hashes[level];
            let cur_v = match self.tree.get(&cur) {
                Some(x) => *x,
                None => dh,
            };
            let sib_v = match self.tree.get(&sibling) {
                Some(x) => *x,
                None => dh,
            };
            proof {
                assert(cur_v@ == node_value(m, eh, hn, cur));
                assert(sib_v@ == node_value(m, eh, hn, sibling));
                assert(fe_wf(cur_v@) && fe_wf(sib_v@)) by {
                    if m.contains_key(cur) {
                        assert(entries_wf(m, hn));
                    }
                    if m.contains_key(sibling) {
                        assert(entries_wf(m, hn));
                    }
                }
            }
            let pair = if cur % 2 == 1 {
                (cur_v, sib_v)
            } else {
                (sib_v, cur_v)
            };
            proof {
                lemma_parent_value(m, eh, hn, parent);
                assert(pair.0@ == node_value(m, eh, hn, (2 * parent + 1) as u64));
                assert(pair.1@ == node_value(m, eh, hn, (2 * parent + 2) as u64));
                assert(node_value(m, eh, hn, parent) == hash_of(pair.0@, pair.1@));
                lemma_calc_root_snoc(leafv, pairs@, pair, node_value(m, eh, hn, cur));
                assert forall|q: int| 0 <= q < pairs@.push(pair).len() implies fe_wf(
                    (#[trigger] pairs@.push(pair)[q]).0@,
                ) && fe_wf(pairs@.push(pair)[q].1@) by {
                    if q < pairs@.len() {
                        assert(pairs@.push(pair)[q] == pairs@[q]);
                        assert(path_wf(pairs@));
                    }
                }
                // the recorded pair has the tree-order layout at this level
                let pos = (index as int) / (pow2(level as nat) as int);
                assert(cur as int == pow2((hn - level) as nat) - 1 + pos);
                lemma_pow2_unfold((hn - level) as nat);
                assert(pos % 2 == 0 <==> cur % 2 == 1);
                if pos % 2 == 0 {
                    assert(cur == 2 * parent + 1);
                    assert(level_pair_ok(m, eh, hn, index, level as int, pair));
                } else {
                    assert(cur == 2 * parent + 2);
                    assert(level_pair_ok(m, eh, hn, index, level as int, pair));
                }
                assert forall|q: int| 0 <= q < level + 1 implies level_pair_ok(
                    m,
                    eh,
                    hn,
                    index,
                    q,
                    #[trigger] pairs@.push(pair)[q],
                ) by {
                    if q < pairs@.len() {
                        assert(pairs@.push(pair)[q] == pairs@[q]);
                    } else {
                        assert(pairs@.push(pair)[q] == pair);
                    }
                }
                // the parent stands at the halved position one level up
                vstd::arithmetic::div_mod::lemma_div_denominator(
                    index as int,
                    pow2(level as nat) as int,
                    2,
                );
                lemma_pow2_unfold((level + 1) as nat);
                assert((index as int) / (pow2((level + 1) as nat) as int) == pos / 2);
                assert(parent as int == pow2((hn - level - 1) as nat) - 1 + pos / 2) by {
                    assert(cur as int == 2 * (pow2((hn - level - 1) as nat) - 1) + 1 + pos)
                        by {
                        lemma_pow2_unfold((hn - level) as nat);
                    }
                    assert(parent as int == (cur as int - 1) / 2);
                }
            }
            pairs.push(pair);
            cur = parent;
            level = level + 1;
        }
        proof {
            assert(node_depth(cur) == 0);
            lemma_depth_range(cur);
            lemma2_to64();
            assert(cur == 0);
        }
        Path { path: pairs }
    }
}

/// Parent index of a node, with the root mapped to itself.
pub open spec fn spec_parent(i: u64) -> u64 {
    if i == 0 {
        0
    } else {
        ((i - 1) / 2) as u64
    }
}

/// Inserting a leaf into a well-formed tree leaves every invariant piece
/// standing except the hash of the leaf's own parent, and leaves the rest
/// of the leaf level untouched.
proof fn lemma_insert_keeps_tree_shape(
    m0: Map<u64, Fe>,
    m1: Map<u64, Fe>,
    eh: Seq<Fe>,
    h: nat,
    leaf_key: u64,
    v: Fe,
)
    requires
        smt_wf(m0, eh, h),
        m1 == m0.insert(leaf_key, v),
        node_depth(leaf_key) == h,
        fe_wf(v@),
    ensures
        entries_wf(m1, h),
        m1.contains_key(leaf_key),
        forall|i: u64| i != spec_parent(leaf_key) ==> #[trigger] child_ok(m1, eh, h, i),
        forall|i: u64| i != leaf_key ==> #[trigger] parent_ok(m1, i),
        forall|i: int| 0 <= i < pow2(h) && (pow2(h) - 1 + i) as u64 != leaf_key
            ==> leaf_entry(m1, h, i) == leaf_entry(m0, h, i),
        leaf_entry(m1, h, (leaf_key - (pow2(h) - 1)) as int) == Some(v),
{
    lemma_depth_range(leaf_key);
    lemma_pow2_strictly_increases(h, 63);
    lemma_pow2_strictly_increases(h + 1, 64);
    lemma2_to64();
    lemma2_to64_rest();
    assert(entries_wf(m1, h)) by {
        assert forall|i: u64| #[trigger] m1.contains_key(i) implies node_depth(i) <= h && fe_wf(
            m1[i]@,
        ) by {
            if i != leaf_key {
                assert(m0.contains_key(i));
            }
        }
    }
    assert forall|i: u64| i != spec_parent(leaf_key) implies #[trigger] child_ok(m1, eh, h, i) by {
        lemma_node_rehash_localized(m0, m1, eh, h, leaf_key, i);
    }
    assert forall|i: u64| i != leaf_key implies #[trigger] parent_ok(m1, i) by {
        if m1.contains_key(i) && i != 0 {
            assert(m0.contains_key(i));
            assert(parent_ok(m0, i));
        }
    }
    assert(leaf_entry(m1, h, (leaf_key - (pow2(h) - 1)) as int) == Some(v));
}

/// After storing a value at node `k`, the child-hash condition of any node
/// other than `k`'s parent is untouched: `k` is a child of its parent
/// alone, and `k`'s own condition is vacuous where `k` is a leaf, or is
/// re-established by the caller where it is not.
proof fn lemma_node_rehash_localized(
    m0: Map<u64, Fe>,
    m1: Map<u64, Fe>,
    eh: Seq<Fe>,
    h: nat,
    k: u64,
    i: u64,
)
    requires
        h <= 62,
        entries_wf(m1, h),
        forall|j: u64| j != k ==> #[trigger] child_ok(m0, eh, h, j),
        m1 == m0.insert(k, m1[k]),
        node_depth(k) < h ==> m1[k]@ == hash_of(
            node_value(m1, eh, h, (2 * k + 1) as u64),
            node_value(m1, eh, h, (2 * k + 2) as u64),
        ),
        i != spec_parent(k) || k == 0,
    ensures
        child_ok(m1, eh, h, i),
{
    if m1.contains_key(i) && node_depth(i) < h {
        lemma_depth_range(i);
        lemma_pow2_strictly_increases(node_depth(i) + 1, 64);
        lemma2_to64();
        lemma2_to64_rest();
        let left = (2 * i + 1) as u64;
        let right = (2 * i + 2) as u64;
        if i == k {
            assert(child_ok(m1, eh, h, i));
        } else {
            assert(child_ok(m0, eh, h, i));
            assert(m0.contains_key(i));
            assert(m0[i] == m1[i]);
            assert(left != k && right != k) by {
                if left == k || right == k {
                    assert(k != 0);
                    assert((((2 * i + 1) as u64 - 1) / 2) as u64 == i);
                    assert((((2 * i + 2) as u64 - 1) / 2) as u64 == i);
                    assert(spec_parent(k) == i);
                }
            }
            assert(node_value(m1, eh, h, left) == node_value(m0, eh, h, left));
            assert(node_value(m1, eh, h, right) == node_value(m0, eh, h, right));
            assert(child_ok(m1, eh, h, i));
        }
    }
}

/// One step of the upward walk: fixing the parent's stored hash restores
/// its child condition and breaks, at most, the grandparent's.
proof fn lemma_walk_insert_step(
    m0: Map<u64, Fe>,
    m1: Map<u64, Fe>,
    eh: Seq<Fe>,
    h: nat,
    cur: u64,
    parent: u64,
    hashed: Fe,
)
    requires
        1 <= h <= 62,
        defaults_wf(eh, h),
        entries_wf(m0, h),
        cur != 0,
        parent == ((cur - 1) / 2) as u64,
        node_depth(cur) <= h,
        node_depth(cur) >= 1,
        m0.contains_key(cur),
        forall|i: u64| i != spec_parent(cur) ==> #[trigger] child_ok(m0, eh, h, i),
        forall|i: u64| i != cur ==> #[trigger] parent_ok(m0, i),
        m1 == m0.insert(parent, hashed),
        fe_wf(hashed@),
        hashed@ == hash_of(
            node_value(m0, eh, h, (2 * parent + 1) as u64),
            node_value(m0, eh, h, (2 * parent + 2) as u64),
        ),
    ensures
        entries_wf(m1, h),
        m1.contains_key(parent),
        node_depth(parent) == node_depth(cur) - 1,
        forall|i: u64| i != spec_parent(parent) || parent == 0
            ==> #[trigger] child_ok(m1, eh, h, i),
        forall|i: u64| i != parent ==> #[trigger] parent_ok(m1, i),
        forall|i: int| 0 <= i < pow2(h) && node_depth((pow2(h) - 1 + i) as u64) == h
            ==> leaf_entry(m1, h, i) == leaf_entry(m0, h, i),
{
    lemma_depth_range(cur);
    lemma_pow2_strictly_increases(node_depth(cur), 63);
    lemma_pow2_strictly_increases(node_depth(cur) + 1, 64);
    lemma2_to64();
    lemma2_to64_rest();
    assert(node_depth(cur) == 1 + node_depth(parent));
    lemma_depth_range(parent);
    let left = (2 * parent + 1) as u64;
    let right = (2 * parent + 2) as u64;
    lemma_child_depth(parent);
    assert(entries_wf(m1, h)) by {
        assert forall|i: u64| #[trigger] m1.contains_key(i) implies node_depth(i) <= h && fe_wf(
            m1[i]@,
        ) by {
            if i != parent {
                assert(m0.contains_key(i));
            }
        }
    }
    // the freshly stored parent satisfies its own child condition: its
    // children's values are unchanged by the insert, since the parent is
    // neither of its own children
    assert(left != parent && right != parent);
    assert(node_value(m1, eh, h, left) == node_value(m0, eh, h, left));
    assert(node_value(m1, eh, h, right) == node_value(m0, eh, h, right));
    assert(m1[parent]@ == hash_of(
        node_value(m1, eh, h, left),
        node_value(m1, eh, h, right),
    ));
    assert forall|i: u64| i != spec_parent(parent) || parent == 0 implies #[trigger] child_ok(
        m1,
        eh,
        h,
        i,
    ) by {
        if i == parent {
            assert(child_ok(m1, eh, h, i));
        } else {
            lemma_node_rehash_localized(m0, m1, eh, h, parent, i);
        }
    }
    assert forall|i: u64| i != parent implies #[trigger] parent_ok(m1, i) by {
        if m1.contains_key(i) && i != 0 {
            if i == cur {
                assert((((cur - 1) / 2) as u64) == parent);
            } else {
                assert(m0.contains_key(i));
                assert(parent_ok(m0, i));
            }
        }
    }
    assert forall|i: int| 0 <= i < pow2(h) && node_depth((pow2(h) - 1 + i) as u64) == h implies
        leaf_entry(m1, h, i) == leaf_entry(m0, h, i) by {
        let k = (pow2(h) - 1 + i) as u64;
        assert(node_depth(parent) < h);
        assert(k != parent);
    }
}

} // verus!
