//! Scalar-field elements, held as canonical little-endian byte encodings.
//!
//! The library never computes field arithmetic itself: addition, reduction and
//! the half-range comparison are delegated to the arkworks field
//! implementation through trusted wrappers, whose contracts are stated over
//! the integer value of the 32-byte encoding.
use vstd::prelude::*;

verus! {

/// The order of the BN254 scalar field.
pub open spec fn fr_modulus() -> int {
    21888242871839275222246405745257275088548364400416034343698204186575808495617int
}

/// The largest value of the canonical "non-negative" half of the field.
pub open spec fn fr_half() -> int {
    (fr_modulus() - 1) / 2
}

/// The integer value of a little-endian byte string.
pub open spec fn le_val(s: Seq<u8>) -> int
    decreases s.len(),
{
    if s.len() == 0 {
        0
    } else {
        s[0] + 256 * le_val(s.subrange(1, s.len() as int))
    }
}

/// The integer value of a big-endian byte string.
pub open spec fn be_val(s: Seq<u8>) -> int
    decreases s.len(),
{
    if s.len() == 0 {
        0
    } else {
        be_val(s.subrange(0, s.len() - 1)) * 256 + s[s.len() - 1]
    }
}

/// 256 raised to the power `n`.
pub open spec fn pow256(n: nat) -> int
    decreases n,
{
    if n == 0 {
        1
    } else {
        256 * pow256((n - 1) as nat)
    }
}

/// A scalar-field element: its canonical 32-byte little-endian encoding.
#[derive(Clone, Copy, Debug, PartialEq, Eq)]
pub struct Fe {
    pub(crate) bytes: [u8; 32],
}

impl View for Fe {
    type V = Seq<u8>;

    closed spec fn view(&self) -> Seq<u8> {
        self.bytes@
    }
}

/// A well-formed encoding: 32 bytes, value reduced modulo the field order.
pub open spec fn fe_wf(s: Seq<u8>) -> bool {
    s.len() == 32 && le_val(s) < fr_modulus()
}

/// The canonical encoding of zero.
pub open spec fn zero32() -> Seq<u8> {
    Seq::new(32, |i: int| 0u8)
}

pub proof fn lemma_le_val_bounds(s: Seq<u8>)
    ensures
        0 <= le_val(s) < pow256(s.len()),
    decreases s.len(),
{
    if s.len() > 0 {
        lemma_le_val_bounds(s.subrange(1, s.len() as int));
    }
}

/// Two byte strings of one length with one value are the same string.
pub proof fn lemma_le_val_injective(a: Seq<u8>, b: Seq<u8>)
    requires
        a.len() == b.len(),
        le_val(a) == le_val(b),
    ensures
        a == b,
    decreases a.len(),
{
    if a.len() > 0 {
        let ta = a.subrange(1, a.len() as int);
        let tb = b.subrange(1, b.len() as int);
        lemma_le_val_bounds(ta);
        lemma_le_val_bounds(tb);
        assert(a[0] + 256 * le_val(ta) == b[0] + 256 * le_val(tb));
        assert(a[0] == b[0] && le_val(ta) == le_val(tb)) by {
            assert(256 * le_val(ta) - 256 * le_val(tb) == 256 * (le_val(ta) - le_val(tb)))
                by (nonlinear_arith);
        }
        lemma_le_val_injective(ta, tb);
        assert forall|i: int| 0 <= i < a.len() implies a[i] == b[i] by {
            if i > 0 {
                assert(a[i] == ta[i - 1]);
                assert(b[i] == tb[i - 1]);
            }
        }
        assert(a =~= b);
    } else {
        assert(a =~= b);
    }
}

/// A string of zero bytes has value zero.
pub proof fn lemma_le_val_zero(s: Seq<u8>)
    requires
        forall|i: int| 0 <= i < s.len() ==> s[i] == 0,
    ensures
        le_val(s) == 0,
    decreases s.len(),
{
    if s.len() > 0 {
        lemma_le_val_zero(s.subrange(1, s.len() as int));
    }
}

/// Constructs the zero element without leaving verified code.
pub fn fe_zero() -> (r: Fe)
    ensures
        fe_wf(r@),
        le_val(r@) == 0,
        r@ == zero32(),
{
    let bytes = [0u8; 32];
    proof {
        assert(bytes@ =~= zero32());
        lemma_le_val_zero(bytes@);
    }
    Fe { bytes }
}

/// Byte-for-byte equality of two encodings.
pub fn fe_eq(a: &Fe, b: &Fe) -> (r: bool)
    ensures
        r == (a@ == b@),
{
    let mut i: usize = 0;
    while i < 32
        invariant
            0 <= i <= 32,
            forall|j: int| 0 <= j < i ==> a@[j] == b@[j],
        decreases 32 - i,
    {
        if a.bytes[i] != b.bytes[i] {
            return false;
        }
        i = i + 1;
    }
    proof {
        assert(a@ =~= b@);
    }
    true
}

/// Whether this is the canonical zero encoding.
pub fn fe_is_zero(a: &Fe) -> (r: bool)
    requires
        a@.len() == 32,
    ensures
        r == (le_val(a@) == 0),
{
    let z = fe_zero();
    let r = fe_eq(a, &z);
    proof {
        if le_val(a@) == 0 {
            lemma_le_val_injective(a@, zero32());
        }
    }
    r
}

/// Copies the encoding out as a byte vector.
pub fn fe_bytes(a: &Fe) -> (r: Vec<u8>)
    ensures
        r@ == a@,
{
    let mut v: Vec<u8> = Vec::new();
    let mut i: usize = 0;
    while i < 32
        invariant
            0 <= i <= 32,
            v@.len() == i,
            forall|j: int| 0 <= j < i ==> v@[j] == a@[j],
        decreases 32 - i,
    {
        v.push(a.bytes[i]);
        i = i + 1;
    }
    proof {
        assert(v@ =~= a@);
    }
    v
}

/// The canonical 32-byte encoding of a 64-bit value: its base-256 digits,
/// least significant first.
pub open spec fn enc64(v: u64) -> Seq<u8> {
    Seq::new(32, |i: int| ((v as int / pow256(i as nat)) % 256) as u8)
}

proof fn lemma_pow256_pos(n: nat)
    ensures
        pow256(n) >= 1,
    decreases n,
{
    if n > 0 {
        lemma_pow256_pos((n - 1) as nat);
    }
}

proof fn lemma_pow256_increases(a: nat, b: nat)
    requires
        a <= b,
    ensures
        pow256(a) <= pow256(b),
    decreases b,
{
    if a < b {
        lemma_pow256_increases(a, (b - 1) as nat);
        lemma_pow256_pos((b - 1) as nat);
    }
}

/// A byte string whose entries are the base-256 digits of `x` has value
/// `x`.
proof fn lemma_le_val_digits(s: Seq<u8>, x: int)
    requires
        0 <= x < pow256(s.len()),
        forall|i: int| 0 <= i < s.len() ==> (#[trigger] s[i]) == ((x / pow256(i as nat))
            % 256) as u8,
    ensures
        le_val(s) == x,
    decreases s.len(),
{
    if s.len() == 0 {
    } else {
        let t = s.subrange(1, s.len() as int);
        let q = x / 256;
        vstd::arithmetic::div_mod::lemma_fundamental_div_mod(x, 256);
        assert(x < 256 * pow256((s.len() - 1) as nat));
        assert(q < pow256((s.len() - 1) as nat)) by (nonlinear_arith)
            requires
                x == 256 * q + x % 256,
                0 <= x % 256,
                x < 256 * pow256((s.len() - 1) as nat),
        ;
        assert(q >= 0) by (nonlinear_arith)
            requires
                x == 256 * q + x % 256,
                x % 256 < 256,
                x >= 0,
        ;
        assert forall|i: int| 0 <= i < t.len() implies (#[trigger] t[i]) == ((q / pow256(
            i as nat,
        )) % 256) as u8 by {
            assert(t[i] == s[i + 1]);
            assert(s[i + 1] == ((x / pow256((i + 1) as nat)) % 256) as u8);
            lemma_pow256_pos(i as nat);
            vstd::arithmetic::div_mod::lemma_div_denominator(x, 256, pow256(i as nat) as int);
            assert(pow256((i + 1) as nat) == 256 * pow256(i as nat));
        }
        lemma_le_val_digits(t, q);
        assert(s[0] == ((x / pow256(0)) % 256) as u8);
        assert(x / pow256(0) == x) by {
            vstd::arithmetic::div_mod::lemma_fundamental_div_mod(x, 1);
        }
        assert(le_val(s) == s[0] + 256 * le_val(t));
    }
}

/// The canonical encoding of a 64-bit value is well-formed and has that
/// value.
pub proof fn lemma_enc64(v: u64)
    ensures
        fe_wf(enc64(v)),
        le_val(enc64(v)) == v as int,
{
    assert(pow256(1) == 256 * pow256(0));
    assert(pow256(2) == 256 * pow256(1));
    assert(pow256(3) == 256 * pow256(2));
    assert(pow256(4) == 256 * pow256(3));
    assert(pow256(5) == 256 * pow256(4));
    assert(pow256(6) == 256 * pow256(5));
    assert(pow256(7) == 256 * pow256(6));
    assert(pow256(8) == 256 * pow256(7));
    assert(pow256(8) == 0x1_0000_0000_0000_0000);
    lemma_pow256_increases(8, 32);
    lemma_le_val_digits(enc64(v), v as int);
}

/// An element holding a 64-bit value is its canonical encoding.
pub proof fn lemma_u64_encoding_unique(f: Fe, v: u64)
    requires
        fe_wf(f@),
        le_val(f@) == v as int,
    ensures
        f@ == enc64(v),
{
    lemma_enc64(v);
    lemma_le_val_injective(f@, enc64(v));
}

/// Every element's encoding is 32 bytes long.
pub broadcast proof fn lemma_fe_view_len(f: Fe)
    ensures
        (#[trigger] f@).len() == 32,
{
}

/// Two elements with one encoding are one element.
pub proof fn lemma_fe_eq_from_view(a: Fe, b: Fe)
    requires
        a@ == b@,
    ensures
        a == b,
{
    broadcast use vstd::array::group_array_axioms;

    assert(a.bytes@ =~= b.bytes@);
    assert(a.bytes =~= b.bytes);
}

/// The byte-reversal of a string: the big-endian form of a little-endian
/// encoding.
pub open spec fn rev_bytes(s: Seq<u8>) -> Seq<u8> {
    Seq::new(s.len(), |j: int| s[s.len() - 1 - j])
}

/// Reversing a byte string swaps its big- and little-endian readings.
pub proof fn lemma_be_val_of_rev(s: Seq<u8>)
    ensures
        be_val(rev_bytes(s)) == le_val(s),
    decreases s.len(),
{
    if s.len() > 0 {
        let t = s.subrange(1, s.len() as int);
        assert(rev_bytes(s).subrange(0, s.len() - 1) =~= rev_bytes(t));
        assert(rev_bytes(s)[s.len() - 1] == s[0]);
        lemma_be_val_of_rev(t);
    }
}

/// Copies the encoding out big-endian.
pub fn fe_bytes_be(a: &Fe) -> (r: Vec<u8>)
    ensures
        r@ == rev_bytes(a@),
{
    let mut v: Vec<u8> = Vec::new();
    let mut i: usize = 0;
    while i < 32
        invariant
            0 <= i <= 32,
            v@.len() == i,
            forall|j: int| 0 <= j < i ==> v@[j] == a@[31 - j],
        decreases 32 - i,
    {
        v.push(a.bytes[31 - i]);
        i = i + 1;
    }
    proof {
        assert(v@ =~= rev_bytes(a@));
    }
    v
}

/// Reads 32 bytes at an offset as a field-element encoding, verbatim.
pub(crate) fn fe_read_at(data: &Vec<u8>, off: usize) -> (r: Fe)
    requires
        off + 32 <= data@.len(),
    ensures
        r@ == data@.subrange(off as int, off as int + 32),
{
    let dl = data.len();
    let mut arr = [0u8; 32];
    let mut j: usize = 0;
    while j < 32
        invariant
            0 <= j <= 32,
            off + 32 <= dl,
            dl == data@.len(),
            forall|q: int| 0 <= q < j ==> arr@[q] == data@[off + q],
        decreases 32 - j,
    {
        arr[j] = data[off + j];
        j = j + 1;
    }
    proof {
        assert(arr@ =~= data@.subrange(off as int, off as int + 32));
    }
    Fe { bytes: arr }
}

/// Relies on `ark_ff`'s `Fr::from` and `BigInt::to_bytes_le`: the canonical
/// little-endian encoding of `v` as a BN254 scalar-field element.
#[verifier::external_body]
pub fn fe_from_u64(v: u64) -> (r: Fe)
    ensures
        fe_wf(r@),
        le_val(r@) == v as int,
{
    let f = ark_bn254::Fr::from(v);
    let b = ark_ff::BigInteger::to_bytes_le(&ark_ff::PrimeField::into_bigint(f));
    Fe { bytes: b.try_into().unwrap() }
}

/// Relies on `ark_ff`'s `Fr::from` for signed integers: a negative `v` is
/// reduced into the field, giving the representative of `v` modulo the order.
#[verifier::external_body]
pub fn fe_from_i64(v: i64) -> (r: Fe)
    ensures
        fe_wf(r@),
        le_val(r@) == (v as int) % fr_modulus(),
{
    let f = ark_bn254::Fr::from(v);
    let b = ark_ff::BigInteger::to_bytes_le(&ark_ff::PrimeField::into_bigint(f));
    Fe { bytes: b.try_into().unwrap() }
}

/// Relies on `ark_ff`'s field addition: the sum of the two values, reduced
/// modulo the field order.
#[verifier::external_body]
pub fn fe_add(a: &Fe, b: &Fe) -> (r: Fe)
    ensures
        fe_wf(r@),
        le_val(r@) == (le_val(a@) + le_val(b@)) % fr_modulus(),
{
    let fa: ark_bn254::Fr = ark_ff::PrimeField::from_le_bytes_mod_order(&a.bytes);
    let fb: ark_bn254::Fr = ark_ff::PrimeField::from_le_bytes_mod_order(&b.bytes);
    let f = fa + fb;
    let b = ark_ff::BigInteger::to_bytes_le(&ark_ff::PrimeField::into_bigint(f));
    Fe { bytes: b.try_into().unwrap() }
}

/// Relies on `ark_ff`'s `BigInt` ordering and `MODULUS_MINUS_ONE_DIV_TWO`:
/// whether the value lies strictly below the half-range boundary
/// (modulus - 1) / 2, the canonical non-negative half of the field.
#[verifier::external_body]
pub fn fe_lt_half(a: &Fe) -> (r: bool)
    requires
        fe_wf(a@),
    ensures
        r == (le_val(a@) < fr_half()),
{
    let fa: ark_bn254::Fr = ark_ff::PrimeField::from_le_bytes_mod_order(&a.bytes);
    let bi = ark_ff::PrimeField::into_bigint(fa);
    bi < <ark_bn254::Fr as ark_ff::PrimeField>::MODULUS_MINUS_ONE_DIV_TWO
}

/// Relies on `ark_ff`'s `Fr::from_be_bytes_mod_order`: the big-endian value
/// of the input, reduced modulo the field order.
#[verifier::external_body]
pub fn fe_from_be_bytes(bytes: &Vec<u8>) -> (r: Fe)
    ensures
        fe_wf(r@),
        le_val(r@) == be_val(bytes@) % fr_modulus(),
{
    let f: ark_bn254::Fr = ark_ff::PrimeField::from_be_bytes_mod_order(bytes.as_slice());
    let b = ark_ff::BigInteger::to_bytes_le(&ark_ff::PrimeField::into_bigint(f));
    Fe { bytes: b.try_into().unwrap() }
}

} // verus!
