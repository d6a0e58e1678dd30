//! Freivalds' check of a claimed matrix product `C = A B`: both sides are
//! applied to the vector of powers of one random element and compared.
use crate::field::{
    field_pow, fq_eq, fq_pow, fq_rand, lemma_modulus_large, modulus, values, FieldElement,
};
use crate::matrix::{mat_vec_product, product, row_dot, Matrix};
use crate::sums::{
    lemma_sum_congruent, lemma_sum_equal, lemma_sum_exchange, lemma_sum_scaled, sum_to,
};
use rand_core::OsRng;
use vstd::arithmetic::div_mod::lemma_mul_mod_noop_general;
use vstd::prelude::*;

verus! {

/// The vector `(r, r^2, ..., r^n)`.
pub open spec fn powers(r: nat, n: nat) -> Seq<nat> {
    Seq::new(n, |i: int| field_pow(r, (i + 1) as nat))
}

/// The shapes fit a claim `C = A B`.
pub open spec fn shapes_agree(a: Matrix, b: Matrix, c: Matrix) -> bool {
    a.cols() == b.rows() && b.cols() == c.cols() && a.rows() == c.rows()
}

/// Whether the check at the challenge `r` accepts: `C x = A (B x)` for
/// `x` the powers of `r`.
pub open spec fn accepts(a: Matrix, b: Matrix, c: Matrix, r: nat) -> bool {
    product(c, powers(r, c.cols())) == product(a, product(b, powers(r, c.cols())))
}

/// Entry `(i, j)` of the product of `a` and `b`.
pub open spec fn product_entry(a: Matrix, b: Matrix, i: int, j: int) -> nat {
    (sum_to(|k: int| (a.entry(i, k) * b.entry(k, j)) as int, a.cols()) % (modulus() as int)) as nat
}

/// `c` is the product of `a` and `b`.
pub open spec fn is_product(a: Matrix, b: Matrix, c: Matrix) -> bool {
    shapes_agree(a, b, c) && forall|i: int, j: int|
        0 <= i < c.rows() && 0 <= j < c.cols() ==> #[trigger] c.entry(i, j) == product_entry(
            a,
            b,
            i,
            j,
        )
}

/// Row `i` of `c x` is row `i` of `a (b x)` where `c` is the product of `a` and `b`.
proof fn lemma_row_agrees(a: Matrix, b: Matrix, c: Matrix, x: Seq<nat>, i: int)
    requires
        is_product(a, b, c),
        0 <= i < c.rows(),
        x.len() == c.cols(),
    ensures
        row_dot(c, i, x) == row_dot(a, i, product(b, x)),
{
    let p = modulus() as int;
    let n = c.cols();
    let inner = a.cols();
    let bx = product(b, x);
    lemma_modulus_large();
    let ab = |j: int| sum_to(|k: int| (a.entry(i, k) * b.entry(k, j)) as int, inner);
    let left = |j: int| (c.entry(i, j) * x[j]) as int;
    let left_exact = |j: int| ab(j) * x[j];
    let h = |j: int, k: int| (a.entry(i, k) * b.entry(k, j)) as int * x[j];
    let by_rows = |j: int| sum_to(|k: int| h(j, k), inner);
    let by_cols = |k: int| sum_to(|j: int| h(j, k), n);
    let right_exact = |k: int| sum_to(|j: int| (b.entry(k, j) * x[j]) as int, n) * a.entry(i, k);
    let right = |k: int| (a.entry(i, k) * bx[k]) as int;
    assert forall|j: int| 0 <= j < n implies #[trigger] left(j) % p == left_exact(j) % p by {
        assert(c.entry(i, j) == product_entry(a, b, i, j));
        lemma_mul_mod_noop_general(ab(j), x[j] as int, p);
    }
    lemma_sum_congruent(left, left_exact, n);
    assert forall|j: int| 0 <= j < n implies #[trigger] left_exact(j) == by_rows(j) by {
        let f = |k: int| (a.entry(i, k) * b.entry(k, j)) as int;
        let g = |k: int| h(j, k);
        lemma_sum_scaled(f, x[j] as int, g, inner);
    }
    lemma_sum_equal(left_exact, by_rows, n);
    lemma_sum_exchange(h, n, inner);
    assert forall|k: int| 0 <= k < inner implies #[trigger] by_cols(k) == right_exact(k) by {
        let f = |j: int| (b.entry(k, j) * x[j]) as int;
        let g = |j: int| h(j, k);
        let aik = a.entry(i, k) as int;
        assert forall|j: int| 0 <= j < n implies #[trigger] g(j) == f(j) * aik by {
            let u = b.entry(k, j) as int;
            let w = x[j] as int;
            assert((aik * u) * w == (u * w) * aik) by (nonlinear_arith);
        }
        lemma_sum_scaled(f, aik, g, n);
    }
    lemma_sum_equal(by_cols, right_exact, inner);
    assert forall|k: int| 0 <= k < inner implies #[trigger] right_exact(k) % p == right(k) % p by {
        let s = sum_to(|j: int| (b.entry(k, j) * x[j]) as int, n);
        let aik = a.entry(i, k) as int;
        assert(bx[k] == row_dot(b, k, x));
        assert(bx[k] == s % p);
        lemma_mul_mod_noop_general(aik, s, p);
        assert(s * aik == aik * s) by (nonlinear_arith);
    }
    lemma_sum_congruent(right_exact, right, inner);
    assert(sum_to(left, n) % p == sum_to(right, inner) % p);
}

/// A true product is accepted at every challenge.
pub proof fn lemma_true_product_accepted(a: Matrix, b: Matrix, c: Matrix, r: nat)
    requires
        is_product(a, b, c),
    ensures
        accepts(a, b, c, r),
{
    let x = powers(r, c.cols());
    assert forall|i: int| 0 <= i < c.rows() implies #[trigger] product(c, x)[i] == product(
        a,
        product(b, x),
    )[i] by {
        lemma_row_agrees(a, b, c, x, i);
    }
    assert(product(c, x) =~= product(a, product(b, x)));
}

/// The party that claims `C = A B`.
pub struct Prover {
    pub A: Matrix,
    pub B: Matrix,
    pub C: Matrix,
}

/// The party that checks the claim `C = A B`.
pub struct Verifier {
    pub A: Matrix,
    pub B: Matrix,
    pub C: Matrix,
}

/// The vector `(r, r^2, ..., r^n)`.
pub fn challenge_vector(r: &FieldElement, n: usize) -> (x: Vec<FieldElement>)
    ensures
        x@.len() == n,
        values(x@) == powers(r@, n as nat),
{
    let mut x: Vec<FieldElement> = Vec::new();
    let mut i: usize = 0;
    while i < n
        invariant
            i <= n,
            x@.len() == i,
            forall|k: int| 0 <= k < i ==> x@[k]@ == field_pow(r@, (k + 1) as nat),
        decreases n - i,
    {
        x.push(fq_pow(r, (i as u64) + 1));
        i = i + 1;
    }
    assert(values(x@) =~= powers(r@, n as nat));
    x
}

/// Whether two vectors of elements agree entry by entry.
pub fn vectors_equal(a: &Vec<FieldElement>, b: &Vec<FieldElement>) -> (same: bool)
    ensures
        same <==> values(a@) == values(b@),
{
    if a.len() != b.len() {
        assert(values(a@).len() != values(b@).len());
        return false;
    }
    let mut i: usize = 0;
    while i < a.len()
        invariant
            i <= a@.len(),
            a@.len() == b@.len(),
            forall|k: int| 0 <= k < i ==> a@[k]@ == b@[k]@,
        decreases a@.len() - i,
    {
        if !fq_eq(&a[i], &b[i]) {
            assert(values(a@)[i as int] != values(b@)[i as int]);
            return false;
        }
        i = i + 1;
    }
    assert(values(a@) =~= values(b@));
    true
}

impl Verifier {
    /// Runs the check at the challenge `r`.
    pub fn check(&self, r: &FieldElement) -> (accept: bool)
        requires
            shapes_agree(self.A, self.B, self.C),
        ensures
            accept <==> accepts(self.A, self.B, self.C, r@),
            is_product(self.A, self.B, self.C) ==> accept,
    {
        proof {
            if is_product(self.A, self.B, self.C) {
                lemma_true_product_accepted(self.A, self.B, self.C, r@);
            }
        }
        let n = self.C.ncols();
        let x = challenge_vector(r, n);
        let Cx = mat_vec_product(&self.C, &x);
        let Bx = mat_vec_product(&self.B, &x);
        assert(Bx@.len() == values(Bx@).len());
        let ABx = mat_vec_product(&self.A, &Bx);
        vectors_equal(&Cx, &ABx)
    }

    /// Draws a fresh challenge and runs the check at it.
    pub fn run(&self, rng: &mut OsRng) -> (accept: bool)
        requires
            shapes_agree(self.A, self.B, self.C),
        ensures
            exists|r: nat| r < modulus() && (accept <==> #[trigger] accepts(self.A, self.B, self.C, r)),
            is_product(self.A, self.B, self.C) ==> accept,
    {
        let r = fq_rand(rng);
        proof {
            use_type_invariant(&r);
        }
        let accept = self.check(&r);
        assert(accept <==> accepts(self.A, self.B, self.C, r@));
        accept
    }
}

} // verus!
