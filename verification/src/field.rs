//! Elements of the prime field, held as six little-endian 64-bit limbs of the
//! canonical representative. The arithmetic itself is done by `ark_ff`.
use ark_bls12_377::Fq;
use ark_ff::{BigInt, Field, One, PrimeField, UniformRand, Zero};
use rand_core::OsRng;
use vstd::prelude::*;

verus! {

/// The operating system's randomness source, from which challenges are drawn.
#[verifier::external_type_specification]
#[verifier::external_body]
pub struct ExOsRng(OsRng);

/// Weight of one limb relative to the previous one.
pub open spec fn limb_base() -> nat {
    0x1_0000_0000_0000_0000
}

/// The field's characteristic, a prime of 377 bits, written limb by limb.
pub open spec fn modulus() -> nat {
    0x8508c00000000001 + limb_base() * (0x170b5d4430000000 + limb_base() * (0x1ef3622fba094800
        + limb_base() * (0x1a22d9f300f5138f + limb_base() * (0xc63b05c06ca1493b + limb_base()
        * 0x1ae3a4617c510ea))))
}

/// The characteristic exceeds every 128-bit number.
pub proof fn lemma_modulus_large()
    ensures
        modulus() > 0xffff_ffff_ffff_ffff_ffff_ffff_ffff_ffff,
{
    assert(modulus() > 0xffff_ffff_ffff_ffff_ffff_ffff_ffff_ffff) by (nonlinear_arith)
        requires
            modulus() == 0x8508c00000000001 + limb_base() * (0x170b5d4430000000 + limb_base() * (
            0x1ef3622fba094800 + limb_base() * (0x1a22d9f300f5138f + limb_base() * (
            0xc63b05c06ca1493b + limb_base() * 0x1ae3a4617c510ea)))),
            limb_base() == 0x1_0000_0000_0000_0000,
    ;
}

/// The natural number that little-endian limbs stand for.
pub open spec fn limbs_to_nat(l: Seq<u64>) -> nat
    decreases l.len(),
{
    if l.len() == 0 {
        0
    } else {
        l[0] as nat + limb_base() * limbs_to_nat(l.skip(1))
    }
}

/// `v` is a multiplicative inverse of `b` in the field.
pub open spec fn is_inverse(b: nat, v: nat) -> bool {
    v < modulus() && (b * v) % modulus() == 1
}

/// The multiplicative inverse of `b`, where it has one.
pub open spec fn inverse_of(b: nat) -> nat {
    choose|v: nat| is_inverse(b, v)
}

/// `q` is `a` divided by `b`: `b` has an inverse, and `q` is `a` times it, reduced.
pub open spec fn is_quotient(a: nat, b: nat, q: nat) -> bool {
    is_inverse(b, inverse_of(b)) && q == (a * inverse_of(b)) % modulus()
}

/// `b` raised to `e` in the field.
pub open spec fn field_pow(b: nat, e: nat) -> nat
    decreases e,
{
    if e == 0 {
        1
    } else {
        (b * field_pow(b, (e - 1) as nat)) % modulus()
    }
}

/// The difference of two integers, reduced into `[0, p)`.
pub open spec fn field_sub(a: int, b: int) -> nat {
    ((a - b) % (modulus() as int)) as nat
}

/// `a` times the inverse of `b`, reduced.
pub open spec fn field_div(a: nat, b: nat) -> nat {
    (a * inverse_of(b)) % modulus()
}

/// Two distinct integers less than the characteristic apart differ in the field.
pub proof fn lemma_distinct_residues(a: int, b: int)
    requires
        a != b,
        a - b < modulus(),
        b - a < modulus(),
    ensures
        field_sub(a, b) != 0,
{
    let p = modulus() as int;
    let d = a - b;
    lemma_modulus_large();
    vstd::arithmetic::div_mod::lemma_fundamental_div_mod(d, p);
    if d % p == 0 {
        let q = d / p;
        assert(false) by (nonlinear_arith)
            requires
                d == p * q,
                -p < d < p,
                d != 0,
        ;
    }
}

/// A natural number below the characteristic is its own residue.
pub proof fn lemma_reduced(a: int)
    requires
        0 <= a < modulus(),
    ensures
        a % (modulus() as int) == a,
{
    vstd::arithmetic::div_mod::lemma_small_mod(a as nat, modulus());
}

/// Reducing the operands of a sum, a difference or a product before the
/// operation does not change the reduced result.
pub proof fn lemma_residues(x: int, y: int)
    ensures
        ((x % (modulus() as int)) + (y % (modulus() as int))) % (modulus() as int) == (x + y) % (
        modulus() as int),
        ((x % (modulus() as int)) - (y % (modulus() as int))) % (modulus() as int) == (x - y) % (
        modulus() as int),
        ((x % (modulus() as int)) * (y % (modulus() as int))) % (modulus() as int) == (x * y) % (
        modulus() as int),
{
    let p = modulus() as int;
    lemma_modulus_large();
    vstd::arithmetic::div_mod::lemma_add_mod_noop(x, y, p);
    vstd::arithmetic::div_mod::lemma_sub_mod_noop(x, y, p);
    vstd::arithmetic::div_mod::lemma_mul_mod_noop_general(x, y, p);
}

/// An element of the field.
#[derive(Clone, Copy, Debug, PartialEq, Eq)]
pub struct FieldElement {
    pub(crate) limbs: [u64; 6],
}

impl FieldElement {
    /// The canonical representative, a natural number.
    pub closed spec fn view(&self) -> nat {
        limbs_to_nat(self.limbs@)
    }

    /// Every element's representative is reduced.
    #[verifier::type_invariant]
    pub open spec fn wf(&self) -> bool {
        self@ < modulus()
    }

    /// The element that `n` names.
    pub fn from_u64(n: u64) -> (r: FieldElement)
        ensures
                r@ == n,
    {
        fq_from_u64(n)
    }

    /// The element that `n` names; a negative `n` names the additive inverse of `-n`.
    pub fn from_i128(n: i128) -> (r: FieldElement)
        ensures
                r@ == n as int % modulus() as int,
    {
        fq_from_i128(n)
    }

    /// The additive identity.
    pub fn zero() -> (r: FieldElement)
        ensures
                r@ == 0,
    {
        fq_zero()
    }

    /// The multiplicative identity.
    pub fn one() -> (r: FieldElement)
        ensures
                r@ == 1,
    {
        fq_one()
    }

    /// The element whose canonical representative the little-endian limbs
    /// spell; `None` where they spell the characteristic or more.
    pub fn from_limbs(limbs: [u64; 6]) -> (r: Option<FieldElement>)
        ensures
            r.is_some() <==> limbs_to_nat(limbs@) < modulus(),
            r.is_some() ==> r.unwrap()@ == limbs_to_nat(limbs@),
    {
        fq_from_bigint(limbs)
    }

    /// The six little-endian limbs of the canonical representative.
    pub fn to_limbs(&self) -> (r: [u64; 6])
        ensures
            limbs_to_nat(r@) == self@,
    {
        self.limbs
    }
}

/// The representatives of a sequence of elements.
pub open spec fn values(s: Seq<FieldElement>) -> Seq<nat> {
    Seq::new(s.len(), |i: int| s[i]@)
}

/// `Fq::from_bigint`: the element whose representative the limbs spell, or
/// `None` where they spell the characteristic or more.
#[verifier::external_body]
pub(crate) fn fq_from_bigint(limbs: [u64; 6]) -> (r: Option<FieldElement>)
    ensures
        r.is_some() <==> limbs_to_nat(limbs@) < modulus(),
        r.is_some() ==> r.unwrap()@ == limbs_to_nat(limbs@),
{
    Fq::from_bigint(BigInt::new(limbs)).map(|x| FieldElement { limbs: x.into_bigint().0 })
}

/// `Fq::from` on a `u64`: the element whose representative is `n`.
#[verifier::external_body]
pub(crate) fn fq_from_u64(n: u64) -> (r: FieldElement)
    ensures
        r@ == n,
{
    FieldElement { limbs: Fq::from(n).into_bigint().0 }
}

/// `Fq::from` on a `u8`: the element whose representative is `n`.
#[verifier::external_body]
pub(crate) fn fq_from_u8(n: u8) -> (r: FieldElement)
    ensures
        r@ == n,
{
    FieldElement { limbs: Fq::from(n).into_bigint().0 }
}

/// `Fq::from` on an `i128`: the residue of `n`, taken in `[0, p)`.
#[verifier::external_body]
pub(crate) fn fq_from_i128(n: i128) -> (r: FieldElement)
    ensures
        r@ == n as int % modulus() as int,
{
    FieldElement { limbs: Fq::from(n).into_bigint().0 }
}

/// `Fq::zero`: the representative is 0.
#[verifier::external_body]
pub(crate) fn fq_zero() -> (r: FieldElement)
    ensures
        r@ == 0,
{
    FieldElement { limbs: Fq::zero().into_bigint().0 }
}

/// `Fq::one`: the representative is 1.
#[verifier::external_body]
pub(crate) fn fq_one() -> (r: FieldElement)
    ensures
        r@ == 1,
{
    FieldElement { limbs: Fq::one().into_bigint().0 }
}

/// `+` on `Fq`: the sum of the representatives, reduced.
#[verifier::external_body]
pub(crate) fn fq_add(a: &FieldElement, b: &FieldElement) -> (r: FieldElement)
    ensures
        r@ == (a@ + b@) % modulus(),
{
    let x = Fq::from_bigint(BigInt::new(a.limbs)).unwrap();
    let y = Fq::from_bigint(BigInt::new(b.limbs)).unwrap();
    FieldElement { limbs: (x + y).into_bigint().0 }
}

/// `-` on `Fq`: the difference of the representatives, reduced into `[0, p)`.
#[verifier::external_body]
pub(crate) fn fq_sub(a: &FieldElement, b: &FieldElement) -> (r: FieldElement)
    ensures
        r@ == (a@ - b@) % modulus() as int,
{
    let x = Fq::from_bigint(BigInt::new(a.limbs)).unwrap();
    let y = Fq::from_bigint(BigInt::new(b.limbs)).unwrap();
    FieldElement { limbs: (x - y).into_bigint().0 }
}

/// `*` on `Fq`: the product of the representatives, reduced.
#[verifier::external_body]
pub(crate) fn fq_mul(a: &FieldElement, b: &FieldElement) -> (r: FieldElement)
    ensures
        r@ == (a@ * b@) % modulus(),
{
    let x = Fq::from_bigint(BigInt::new(a.limbs)).unwrap();
    let y = Fq::from_bigint(BigInt::new(b.limbs)).unwrap();
    FieldElement { limbs: (x * y).into_bigint().0 }
}

/// `/` on `Fq`, which multiplies by the divisor's inverse and panics on a zero
/// divisor: a nonzero divisor has an inverse, and the quotient is the dividend
/// times that inverse, reduced.
#[verifier::external_body]
pub(crate) fn fq_div(a: &FieldElement, b: &FieldElement) -> (r: FieldElement)
    requires
        b@ != 0,
    ensures
        is_quotient(a@, b@, r@),
{
    let x = Fq::from_bigint(BigInt::new(a.limbs)).unwrap();
    let y = Fq::from_bigint(BigInt::new(b.limbs)).unwrap();
    FieldElement { limbs: (x / y).into_bigint().0 }
}

/// `Field::pow` with a one-limb exponent: the base multiplied `e` times in the field.
#[verifier::external_body]
pub(crate) fn fq_pow(a: &FieldElement, e: u64) -> (r: FieldElement)
    ensures
        r@ == field_pow(a@, e as nat),
{
    let x = Fq::from_bigint(BigInt::new(a.limbs)).unwrap();
    FieldElement { limbs: x.pow(&[e]).into_bigint().0 }
}

/// `==` on `Fq`: two elements are equal exactly when their representatives are.
#[verifier::external_body]
pub(crate) fn fq_eq(a: &FieldElement, b: &FieldElement) -> (r: bool)
    ensures
        r == (a@ == b@),
{
    let x = Fq::from_bigint(BigInt::new(a.limbs)).unwrap();
    let y = Fq::from_bigint(BigInt::new(b.limbs)).unwrap();
    x == y
}

/// `Fq::rand`: some element of the field; nothing more is known of it.
#[verifier::external_body]
pub(crate) fn fq_rand(rng: &mut OsRng) -> (r: FieldElement)
{
    FieldElement { limbs: Fq::rand(rng).into_bigint().0 }
}

} // verus!
