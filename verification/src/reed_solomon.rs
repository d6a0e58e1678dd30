//! Reed-Solomon fingerprinting: two parties compare byte sequences by
//! evaluating each, read as a polynomial, at one random point.
use crate::field::{
    field_pow, fq_add, fq_eq, fq_from_u8, fq_mul, fq_pow, fq_rand, fq_zero, lemma_modulus_large,
    lemma_reduced, modulus, FieldElement,
};
use rand_core::OsRng;
use vstd::prelude::*;

verus! {

/// The value at `r` of the polynomial whose coefficients are the first `n`
/// bytes of `data`, lowest degree first.
pub open spec fn fingerprint_prefix(data: Seq<u8>, r: nat, n: nat) -> nat
    decreases n,
{
    if n == 0 {
        0
    } else {
        (fingerprint_prefix(data, r, (n - 1) as nat) + (data[n - 1] as nat * field_pow(
            r,
            (n - 1) as nat,
        )) % modulus()) % modulus()
    }
}

/// The value at `r` of the polynomial whose coefficients are the bytes of `data`.
pub open spec fn fingerprint(data: Seq<u8>, r: nat) -> nat {
    fingerprint_prefix(data, r, data.len())
}

/// The bytes to be fingerprinted.
pub struct RawData(pub Vec<u8>);

/// The point at which both parties evaluate.
#[derive(Clone, Copy, Debug, PartialEq, Eq)]
pub struct ChallengeElement(pub FieldElement);

/// A polynomial's value at a `ChallengeElement`.
#[derive(Clone, Copy, Debug, PartialEq, Eq)]
pub struct Evaluation(pub FieldElement);

impl RawData {
    /// The Reed-Solomon encoding of the data, evaluated at `r`.
    pub fn reed_solomon_encoding(&self, r: &ChallengeElement) -> (e: Evaluation)
        ensures
            e.0@ == fingerprint(self.0@, r.0@),
    {
        let mut v = fq_zero();
        let n = self.0.len();
        let mut i: usize = 0;
        while i < n
            invariant
                n == self.0.len(),
                i <= n,
                v@ == fingerprint_prefix(self.0@, r.0@, i as nat),
            decreases n - i,
        {
            let term = fq_mul(&fq_from_u8(self.0[i]), &fq_pow(&r.0, i as u64));
            v = fq_add(&v, &term);
            i = i + 1;
        }
        Evaluation(v)
    }
}

/// The party that issues the challenge and its own evaluation.
pub struct Prover {
    pub data: RawData,
}

impl Prover {
    /// Draws a fresh challenge and evaluates the data there.
    pub fn run(&self, rng: &mut OsRng) -> (out: (Evaluation, ChallengeElement))
        ensures
            out.0.0@ == fingerprint(self.data.0@, out.1.0@),
    {
        let r = ChallengeElement(fq_rand(rng));
        (self.data.reed_solomon_encoding(&r), r)
    }
}

/// The party that checks the received evaluation against its own data.
pub struct Verifier {
    pub data: RawData,
}

impl Verifier {
    /// Accepts exactly when `v` is the fingerprint of the verifier's data at `r`.
    pub fn run(&self, r: ChallengeElement, v: Evaluation) -> (accept: bool)
        ensures
            accept <==> v.0@ == fingerprint(self.data.0@, r.0@),
    {
        let mine = self.data.reed_solomon_encoding(&r);
        fq_eq(&v.0, &mine.0)
    }
}

/// Equal data has equal fingerprints at every point, so an honest exchange is
/// always accepted.
pub proof fn lemma_equal_data_accepted(prover: Seq<u8>, verifier: Seq<u8>, r: nat)
    requires
        prover == verifier,
    ensures
        fingerprint(prover, r) == fingerprint(verifier, r),
{
}

/// `longer` is `data` followed by zero bytes only.
pub open spec fn is_zero_padding(data: Seq<u8>, longer: Seq<u8>) -> bool {
    &&& data.len() <= longer.len()
    &&& forall|k: int| 0 <= k < data.len() ==> longer[k] == data[k]
    &&& forall|k: int| data.len() <= k < longer.len() ==> longer[k] == 0
}

/// Over the first `n` bytes, zero padding adds nothing to the fingerprint.
proof fn lemma_padding_prefix(data: Seq<u8>, longer: Seq<u8>, r: nat, n: nat)
    requires
        is_zero_padding(data, longer),
        n <= longer.len(),
    ensures
        fingerprint_prefix(longer, r, n) == fingerprint_prefix(
            data,
            r,
            if n <= data.len() {
                n
            } else {
                data.len()
            },
        ),
        fingerprint_prefix(longer, r, n) < modulus(),
    decreases n,
{
    lemma_modulus_large();
    if n > 0 {
        lemma_padding_prefix(data, longer, r, (n - 1) as nat);
        if n > data.len() {
            let before = fingerprint_prefix(longer, r, (n - 1) as nat);
            let pw = field_pow(r, (n - 1) as nat);
            assert(longer[n - 1] == 0);
            assert(0 * pw == 0);
            lemma_reduced(0);
            lemma_reduced(before as int);
        }
    }
}

/// A sequence and the same sequence followed by zero bytes have the same
/// fingerprint at every point: the shorter one's missing coefficients are zero.
pub proof fn lemma_zero_padding_ignored(data: Seq<u8>, longer: Seq<u8>, r: nat)
    requires
        is_zero_padding(data, longer),
    ensures
        fingerprint(longer, r) == fingerprint(data, r),
{
    lemma_padding_prefix(data, longer, r, longer.len());
}

} // verus!
