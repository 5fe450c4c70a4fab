//! Elements of the BN254 base field, held in canonical form as four 64-bit limbs.
//!
//! The arithmetic itself is done by arkworks; everything else (construction,
//! comparison, byte encoding) works on the limbs and is verified here. What
//! is taken on trust of arkworks stands at the end of this file: each of those
//! functions gets canonical limbs, which is the invariant of the type, and
//! returns canonical limbs.

use ark_bn254::Fq;
use ark_ff::{BigInt, PrimeField};
use vstd::arithmetic::div_mod::{
    lemma_add_mod_noop, lemma_mod_twice, lemma_mul_mod_noop, lemma_small_mod, lemma_sub_mod_noop,
};
use vstd::prelude::*;

verus! {

/// The prime order of the field: the base-field modulus of the BN254 curve.
pub open spec fn modulus() -> nat {
    21888242871839275222246405745257275088696311157297823662689037894645226208583nat
}

/// Addition in the field, on canonical representatives.
#[verifier::opaque]
pub open spec fn field_add(a: nat, b: nat) -> nat {
    (a + b) % modulus()
}

/// Subtraction in the field, on canonical representatives.
#[verifier::opaque]
pub open spec fn field_sub(a: nat, b: nat) -> nat {
    ((a as int - b as int) % (modulus() as int)) as nat
}

/// Multiplication in the field, on canonical representatives.
#[verifier::opaque]
pub open spec fn field_mul(a: nat, b: nat) -> nat {
    (a * b) % modulus()
}

/// Whether two integers denote the same element of the field.
#[verifier::opaque]
pub open spec fn congruent(a: int, b: int) -> bool {
    a % (modulus() as int) == b % (modulus() as int)
}

/// Every integer denotes the element that it denotes.
pub proof fn lemma_congruent_refl(a: int)
    ensures
        congruent(a, a),
{
    reveal(congruent);
}

/// The sum of two elements denotes the sum of what they denote.
pub proof fn lemma_add_congruent(a: nat, b: nat, x: int, y: int)
    requires
        congruent(a as int, x),
        congruent(b as int, y),
    ensures
        congruent(field_add(a, b) as int, x + y),
        field_add(a, b) < modulus(),
{
    reveal(congruent);
    reveal(field_add);
    let m = modulus() as int;
    lemma_mod_twice(a as int + b as int, m);
    lemma_add_mod_noop(a as int, b as int, m);
    lemma_add_mod_noop(x, y, m);
}

/// The difference of two elements denotes the difference of what they denote.
pub proof fn lemma_sub_congruent(a: nat, b: nat, x: int, y: int)
    requires
        congruent(a as int, x),
        congruent(b as int, y),
    ensures
        congruent(field_sub(a, b) as int, x - y),
        field_sub(a, b) < modulus(),
{
    reveal(congruent);
    reveal(field_sub);
    let m = modulus() as int;
    lemma_mod_twice(a as int - b as int, m);
    lemma_sub_mod_noop(a as int, b as int, m);
    lemma_sub_mod_noop(x, y, m);
}

/// The product of two elements denotes the product of what they denote.
pub proof fn lemma_mul_congruent(a: nat, b: nat, x: int, y: int)
    requires
        congruent(a as int, x),
        congruent(b as int, y),
    ensures
        congruent(field_mul(a, b) as int, x * y),
        field_mul(a, b) < modulus(),
{
    reveal(congruent);
    reveal(field_mul);
    let m = modulus() as int;
    lemma_mod_twice(a as int * b as int, m);
    lemma_mul_mod_noop(a as int, b as int, m);
    lemma_mul_mod_noop(x, y, m);
}

/// Integers that denote the same element can stand for each other.
pub proof fn lemma_congruent_trans(a: int, b: int, c: int)
    requires
        congruent(a, b),
        congruent(b, c),
    ensures
        congruent(a, c),
        congruent(c, a),
        congruent(b, a),
{
    reveal(congruent);
}

/// The line through two integers, taken at `r`, denotes the same element
/// when the two integers are replaced by congruent ones.
pub proof fn lemma_congruent_line(lo: int, lo2: int, hi: int, hi2: int, r: int)
    requires
        congruent(lo, lo2),
        congruent(hi, hi2),
    ensures
        congruent(lo + r * (hi - lo), lo2 + r * (hi2 - lo2)),
{
    reveal(congruent);
    let m = modulus() as int;
    lemma_sub_mod_noop(hi, lo, m);
    lemma_sub_mod_noop(hi2, lo2, m);
    vstd::arithmetic::div_mod::lemma_mul_mod_noop_right(r, hi - lo, m);
    vstd::arithmetic::div_mod::lemma_mul_mod_noop_right(r, hi2 - lo2, m);
    lemma_add_mod_noop(lo, r * (hi - lo), m);
    lemma_add_mod_noop(lo2, r * (hi2 - lo2), m);
}

/// Sums of congruent integers are congruent.
pub proof fn lemma_congruent_sum(a: int, b: int, c: int, d: int)
    requires
        congruent(a, b),
        congruent(c, d),
    ensures
        congruent(a + c, b + d),
{
    reveal(congruent);
    let m = modulus() as int;
    lemma_add_mod_noop(a, c, m);
    lemma_add_mod_noop(b, d, m);
}

/// Products of congruent integers are congruent.
pub proof fn lemma_congruent_product(a: int, b: int, c: int, d: int)
    requires
        congruent(a, b),
        congruent(c, d),
    ensures
        congruent(a * c, b * d),
{
    reveal(congruent);
    let m = modulus() as int;
    lemma_mul_mod_noop(a, c, m);
    lemma_mul_mod_noop(b, d, m);
}

/// Zero and one are neutral: adding zero to an element, or multiplying it by
/// one, leaves it unchanged.
pub proof fn lemma_neutral(a: nat)
    requires
        a < modulus(),
    ensures
        field_add(a, 0) == a,
        field_add(0, a) == a,
        field_mul(a, 1) == a,
        field_mul(1, a) == a,
{
    let ai = a as int;
    lemma_congruent_refl(ai);
    lemma_congruent_refl(0);
    lemma_congruent_refl(1);
    lemma_add_congruent(a, 0, ai, 0);
    lemma_add_congruent(0, a, 0, ai);
    lemma_mul_congruent(a, 1, ai, 1);
    lemma_mul_congruent(1, a, 1, ai);
    assert(ai * 1 == ai && 1 * ai == ai) by (nonlinear_arith);
    lemma_congruent_equal(field_add(a, 0), a, ai);
    lemma_congruent_equal(field_add(0, a), a, ai);
    lemma_congruent_equal(field_mul(a, 1), a, ai);
    lemma_congruent_equal(field_mul(1, a), a, ai);
}

/// Two canonical representatives that denote the same integer are equal.
pub proof fn lemma_congruent_equal(a: nat, b: nat, x: int)
    requires
        a < modulus(),
        b < modulus(),
        congruent(a as int, x),
        congruent(b as int, x),
    ensures
        a == b,
{
    reveal(congruent);
    lemma_small_mod(a, modulus());
    lemma_small_mod(b, modulus());
}

/// The number that a byte string denotes when read least significant byte first.
pub open spec fn le_bytes_value(bytes: Seq<u8>) -> nat
    decreases bytes.len(),
{
    if bytes.len() == 0 {
        0
    } else {
        bytes[0] as nat + 256 * le_bytes_value(bytes.skip(1))
    }
}

/// The `n` least significant bytes of `value`, least significant first.
pub open spec fn le_bytes(value: nat, n: nat) -> Seq<u8>
    decreases n,
{
    if n == 0 {
        Seq::empty()
    } else {
        seq![(value % 256) as u8] + le_bytes(value / 256, (n - 1) as nat)
    }
}

/// Number of bytes in the encoding of one field element.
pub const FE_BYTES: usize = 32;

/// The weight of one limb: 2^64.
pub open spec fn limb_base() -> nat {
    0x1_0000_0000_0000_0000nat
}

/// An element of the field. The limbs are little-endian and always denote a
/// number below the modulus, so two elements are equal exactly when their
/// limbs are.
#[derive(Clone, Copy, Debug, PartialEq, Eq, Structural)]
pub struct Fe {
    l0: u64,
    l1: u64,
    l2: u64,
    l3: u64,
}

impl View for Fe {
    type V = nat;

    /// The number that the limbs denote.
    closed spec fn view(&self) -> nat {
        self.l0 as nat + limb_base() * (self.l1 as nat + limb_base() * (self.l2 as nat
            + limb_base() * (self.l3 as nat)))
    }
}

impl DeepView for Fe {
    type V = nat;

    open spec fn deep_view(&self) -> nat {
        self@
    }
}

impl Fe {
    /// The limbs denote a number below the modulus.
    #[verifier::type_invariant]
    spec fn canonical(self) -> bool {
        self@ < modulus()
    }

    /// The additive identity.
    pub fn zero() -> (r: Fe)
        ensures
            r@ == 0,
            r@ < modulus(),
    {
        Fe { l0: 0, l1: 0, l2: 0, l3: 0 }
    }

    /// The multiplicative identity.
    pub fn one() -> (r: Fe)
        ensures
            r@ == 1,
            r@ < modulus(),
    {
        Fe { l0: 1, l1: 0, l2: 0, l3: 0 }
    }

    /// The element that a machine integer denotes.
    pub fn from_u64(x: u64) -> (r: Fe)
        ensures
            r@ == x,
            r@ < modulus(),
    {
        Fe { l0: x, l1: 0, l2: 0, l3: 0 }
    }

    /// Whether two elements are the same element of the field.
    pub fn equals(&self, other: &Fe) -> (same: bool)
        ensures
            same == (self@ == other@),
    {
        proof {
            if self@ == other@ {
                lemma_view_injective(*self, *other);
            }
        }
        *self == *other
    }

    /// The 32-byte little-endian encoding of the element.
    pub fn to_bytes_le(&self) -> (bytes: Vec<u8>)
        ensures
            bytes@ == le_bytes(self@, FE_BYTES as nat),
    {
        let mut bytes: Vec<u8> = Vec::new();
        push_u64_le(&mut bytes, self.l0);
        push_u64_le(&mut bytes, self.l1);
        push_u64_le(&mut bytes, self.l2);
        push_u64_le(&mut bytes, self.l3);
        proof {
            let c = limb_base();
            let v2 = self.l2 as nat + c * (self.l3 as nat);
            let v1 = self.l1 as nat + c * v2;
            lemma_le_bytes_limb(self.l0 as nat, v1, 24);
            lemma_le_bytes_limb(self.l1 as nat, v2, 16);
            lemma_le_bytes_limb(self.l2 as nat, self.l3 as nat, 8);
            assert(bytes@ =~= le_bytes(self@, 32));
        }
        bytes
    }

    /// `self + rhs` in the field.
    pub fn add(self, rhs: Fe) -> (r: Fe)
        ensures
            r@ == field_add(self@, rhs@),
            r@ < modulus(),
    {
        let r = fq_add(self, rhs);
        proof {
            use_type_invariant(r);
        }
        r
    }

    /// `self - rhs` in the field.
    pub fn sub(self, rhs: Fe) -> (r: Fe)
        ensures
            r@ == field_sub(self@, rhs@),
            r@ < modulus(),
    {
        let r = fq_sub(self, rhs);
        proof {
            use_type_invariant(r);
        }
        r
    }

    /// `self * rhs` in the field.
    pub fn mul(self, rhs: Fe) -> (r: Fe)
        ensures
            r@ == field_mul(self@, rhs@),
            r@ < modulus(),
    {
        let r = fq_mul(self, rhs);
        proof {
            use_type_invariant(r);
        }
        r
    }

    /// The element that a byte string denotes, read least significant byte
    /// first and reduced modulo the field order.
    pub fn from_le_bytes_mod_order(bytes: &Vec<u8>) -> (r: Fe)
        ensures
            r@ == le_bytes_value(bytes@) % modulus(),
            r@ < modulus(),
    {
        let r = fq_from_le_bytes_mod_order(bytes);
        proof {
            use_type_invariant(r);
        }
        r
    }

    /// Every element is below the modulus.
    pub fn bounded(&self)
        ensures
            self@ < modulus(),
    {
        proof {
            use_type_invariant(self);
        }
    }
}

/// Two sequences of elements with the same values are the same sequence.
pub proof fn lemma_elements_agree(a: Seq<Fe>, b: Seq<Fe>)
    requires
        a.len() == b.len(),
        forall|i: int| 0 <= i < a.len() ==> (#[trigger] a[i])@ == b[i]@,
    ensures
        a == b,
{
    assert forall|i: int| 0 <= i < a.len() implies a[i] == b[i] by {
        lemma_view_injective(a[i], b[i]);
    }
    assert(a =~= b);
}

/// Two elements with the same value are the same element.
pub proof fn lemma_view_injective(a: Fe, b: Fe)
    requires
        a@ == b@,
    ensures
        a == b,
{
    let c = limb_base() as int;
    let ha = a.l1 as int + c * (a.l2 as int + c * (a.l3 as int));
    let hb = b.l1 as int + c * (b.l2 as int + c * (b.l3 as int));
    assert(a.l0 as int + c * ha == b.l0 as int + c * hb);
    assert(ha == hb && a.l0 == b.l0) by {
        lemma_split_unique(a.l0 as int, ha, b.l0 as int, hb);
    }
    let ma = a.l2 as int + c * (a.l3 as int);
    let mb = b.l2 as int + c * (b.l3 as int);
    assert(ma == mb && a.l1 == b.l1) by {
        lemma_split_unique(a.l1 as int, ma, b.l1 as int, mb);
    }
    assert(a.l3 == b.l3 && a.l2 == b.l2) by {
        lemma_split_unique(a.l2 as int, a.l3 as int, b.l2 as int, b.l3 as int);
    }
}

/// A number splits in one way only into a low limb and what lies above it.
proof fn lemma_split_unique(lo1: int, hi1: int, lo2: int, hi2: int)
    requires
        0 <= lo1 < limb_base(),
        0 <= lo2 < limb_base(),
        lo1 + limb_base() * hi1 == lo2 + limb_base() * hi2,
    ensures
        lo1 == lo2,
        hi1 == hi2,
{
    if hi1 < hi2 {
        assert(limb_base() * hi2 >= limb_base() * (hi1 + 1)) by (nonlinear_arith)
            requires
                hi1 < hi2,
        ;
    }
    if hi2 < hi1 {
        assert(limb_base() * hi1 >= limb_base() * (hi2 + 1)) by (nonlinear_arith)
            requires
                hi2 < hi1,
        ;
    }
}

/// Appends the eight bytes of `x`, least significant first.
fn push_u64_le(out: &mut Vec<u8>, x: u64)
    ensures
        final(out)@ == old(out)@ + le_bytes(x as nat, 8),
{
    let mut rest: u64 = x;
    let mut k: usize = 0;
    while k < 8
        invariant
            k <= 8,
            old(out)@ + le_bytes(x as nat, 8) == out@ + le_bytes(rest as nat, (8 - k) as nat),
        decreases 8 - k,
    {
        proof {
            assert(le_bytes(rest as nat, (8 - k) as nat) =~= seq![(rest as nat % 256) as u8]
                + le_bytes(rest as nat / 256, (8 - k - 1) as nat));
        }
        let ghost before = out@;
        out.push((rest % 256) as u8);
        rest = rest / 256;
        k = k + 1;
        proof {
            assert(out@ + le_bytes(rest as nat, (8 - k) as nat) =~= before + (seq![out@.last()]
                + le_bytes(rest as nat, (8 - k) as nat)));
        }
    }
    proof {
        assert(out@ + le_bytes(rest as nat, 0) =~= out@);
    }
}

/// The bytes of a number split at a limb boundary.
proof fn lemma_le_bytes_limb(lo: nat, hi: nat, n: nat)
    requires
        lo < limb_base(),
    ensures
        le_bytes(lo + limb_base() * hi, 8 + n) == le_bytes(lo, 8) + le_bytes(hi, n),
{
    assert(scale_is_power(0x1_0000_0000_0000_0000, 8)) by {
        reveal_with_fuel(scale_is_power, 9);
    }
    lemma_le_bytes_split(lo, hi, 0x1_0000_0000_0000_0000, 8, n);
}

/// The bytes of `lo + scale * hi`, where `scale` is `256^k` and `lo` fits in
/// `k` bytes, are the `k` bytes of `lo` followed by the bytes of `hi`.
proof fn lemma_le_bytes_split(lo: nat, hi: nat, scale: nat, k: nat, n: nat)
    requires
        lo < scale,
        scale_is_power(scale, k),
    ensures
        le_bytes(lo + scale * hi, k + n) =~= le_bytes(lo, k) + le_bytes(hi, n),
    decreases k,
{
    reveal_with_fuel(scale_is_power, 2);
    if k == 0 {
        assert(scale == 1);
        assert(lo + scale * hi == hi) by (nonlinear_arith)
            requires
                scale == 1,
                lo == 0,
        ;
    } else {
        let s = scale / 256;
        let v = lo + scale * hi;
        assert(scale == 256 * s);
        assert(v == lo + 256 * (s * hi)) by (nonlinear_arith)
            requires
                v == lo + scale * hi,
                scale == 256 * s,
        ;
        assert(v % 256 == lo % 256);
        assert(v / 256 == lo / 256 + s * hi);
        lemma_le_bytes_split(lo / 256, hi, s, (k - 1) as nat, n);
    }
}

/// `scale` is `256^k`.
spec fn scale_is_power(scale: nat, k: nat) -> bool
    decreases k,
{
    if k == 0 {
        scale == 1
    } else {
        scale % 256 == 0 && scale_is_power(scale / 256, (k - 1) as nat)
    }
}

/// Sum of two elements, computed by arkworks: `Fq::new` builds the two field
/// elements from their limbs, `+` adds them modulo the field order, and
/// `into_bigint` gives the canonical limbs of the sum.
#[verifier::external_body]
fn fq_add(a: Fe, b: Fe) -> (r: Fe)
    ensures
        r@ == field_add(a@, b@),
{
    let x = Fq::new(BigInt::new([a.l0, a.l1, a.l2, a.l3]));
    let y = Fq::new(BigInt::new([b.l0, b.l1, b.l2, b.l3]));
    let l = (x + y).into_bigint().0;
    Fe { l0: l[0], l1: l[1], l2: l[2], l3: l[3] }
}

/// Difference of two elements, computed by arkworks: `Fq::new` builds the two
/// field elements from their limbs, `-` subtracts them modulo the field order,
/// and `into_bigint` gives the canonical limbs of the difference.
#[verifier::external_body]
fn fq_sub(a: Fe, b: Fe) -> (r: Fe)
    ensures
        r@ == field_sub(a@, b@),
{
    let x = Fq::new(BigInt::new([a.l0, a.l1, a.l2, a.l3]));
    let y = Fq::new(BigInt::new([b.l0, b.l1, b.l2, b.l3]));
    let l = (x - y).into_bigint().0;
    Fe { l0: l[0], l1: l[1], l2: l[2], l3: l[3] }
}

/// Product of two elements, computed by arkworks: `Fq::new` builds the two
/// field elements from their limbs, `*` multiplies them modulo the field order,
/// and `into_bigint` gives the canonical limbs of the product.
#[verifier::external_body]
fn fq_mul(a: Fe, b: Fe) -> (r: Fe)
    ensures
        r@ == field_mul(a@, b@),
{
    let x = Fq::new(BigInt::new([a.l0, a.l1, a.l2, a.l3]));
    let y = Fq::new(BigInt::new([b.l0, b.l1, b.l2, b.l3]));
    let l = (x * y).into_bigint().0;
    Fe { l0: l[0], l1: l[1], l2: l[2], l3: l[3] }
}

/// arkworks' `PrimeField::from_le_bytes_mod_order` on `Fq`: the bytes are read
/// as a little-endian integer, which is reduced modulo the field order;
/// `into_bigint` gives the canonical limbs of the result.
#[verifier::external_body]
fn fq_from_le_bytes_mod_order(bytes: &Vec<u8>) -> (r: Fe)
    ensures
        r@ == le_bytes_value(bytes@) % modulus(),
{
    let l = Fq::from_le_bytes_mod_order(bytes.as_slice()).into_bigint().0;
    Fe { l0: l[0], l1: l[1], l2: l[2], l3: l[3] }
}

} // verus!
