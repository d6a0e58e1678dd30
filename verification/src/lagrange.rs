//! Polynomial algebra: Lagrange basis polynomials over the grid `0..n`,
//! polynomials in the monomial basis, and multilinear extensions.
use crate::field::{
    field_div, field_pow, field_sub, fq_add, fq_div, fq_from_i128, fq_mul, fq_one, fq_sub,
    fq_zero, inverse_of, lemma_distinct_residues, lemma_modulus_large, lemma_reduced,
    modulus, FieldElement,
};
use vstd::prelude::*;

verus! {

/// The factor that grid point `k` contributes to the `i`-th basis polynomial at `x`.
pub open spec fn basis_factor(i: nat, k: nat, x: nat) -> nat {
    field_div(field_sub(x as int, k as int), field_sub(i as int, k as int))
}

/// The product of the factors of the grid points below `m`, but for `i` itself.
pub open spec fn basis_prefix(i: nat, m: nat, x: nat) -> nat
    decreases m,
{
    if m == 0 {
        1
    } else if m - 1 == i {
        basis_prefix(i, (m - 1) as nat, x)
    } else {
        (basis_prefix(i, (m - 1) as nat, x) * basis_factor(i, (m - 1) as nat, x)) % modulus()
    }
}

/// The value at `x` of the `i`-th Lagrange basis polynomial over the grid `0..n`.
pub open spec fn lagrange_basis(i: nat, n: nat, x: nat) -> nat {
    basis_prefix(i, n, x)
}

/// A Lagrange basis polynomial over the grid `0..n`.
pub struct LagrangeBasisPolynomial {
    /// Which basis polynomial: the grid point at which it is 1.
    pub i: usize,
    /// The number of grid points; the degree is at most `n - 1`.
    pub n: usize,
}

impl LagrangeBasisPolynomial {
    /// Evaluates the polynomial at `X`. At a grid point the value is 1 where
    /// the point is `i` and 0 elsewhere.
    pub fn evaluate(&self, X: FieldElement) -> (r: FieldElement)
        ensures
            r@ == lagrange_basis(self.i as nat, self.n as nat, X@),
            X@ < self.n && X@ == self.i ==> r@ == 1,
            X@ < self.n && X@ != self.i ==> r@ == 0,
    {
        let mut res = fq_one();
        let fi = fq_from_i128(self.i as i128);
        proof {
            lemma_modulus_large();
            lemma_reduced(self.i as int);
        }
        let mut j: usize = 0;
        while j < self.n
            invariant
                j <= self.n,
                fi@ == self.i,
                res@ == basis_prefix(self.i as nat, j as nat, X@),
                X@ == self.i ==> res@ == 1,
                X@ < j && X@ != self.i ==> res@ == 0,
            decreases self.n - j,
        {
            if j != self.i {
                let fj = fq_from_i128(j as i128);
                let num = fq_sub(&X, &fj);
                let den = fq_sub(&fi, &fj);
                proof {
                    lemma_modulus_large();
                    lemma_reduced(j as int);
                    lemma_distinct_residues(self.i as int, j as int);
                }
                let f = fq_div(&num, &den);
                let ghost before = res@;
                proof {
                    use_type_invariant(&res);
                }
                res = fq_mul(&res, &f);
                proof {
                    let p = modulus();
                    let inv = inverse_of(den@);
                    assert(f@ == basis_factor(self.i as nat, j as nat, X@));
                    if X@ == j {
                        lemma_reduced(0);
                        assert(num@ == 0);
                        assert(0 * inv == 0);
                        assert(f@ == 0);
                        assert(before * 0 == 0);
                    } else if X@ == self.i {
                        assert(num@ == den@);
                        assert(den@ * inv == num@ * inv);
                        assert(f@ == 1);
                        assert(before * 1 == before);
                        lemma_reduced(before as int);
                    } else if X@ < j {
                        lemma_reduced(0);
                        assert(0 * f@ == 0);
                    }
                }
            }
            j = j + 1;
        }
        res
    }
}

/// The value at `x` of the first `n` terms of the polynomial with coefficients `a`.
pub open spec fn monomial_prefix(a: Seq<FieldElement>, x: nat, n: nat) -> nat
    decreases n,
{
    if n == 0 {
        0
    } else {
        (monomial_prefix(a, x, (n - 1) as nat) + (a[n - 1]@ * field_pow(x, (n - 1) as nat))
            % modulus()) % modulus()
    }
}

/// The sum, over the first `m` grid points `j`, of the coefficient after `j`
/// times the `j`-th basis polynomial's value at `x`.
pub open spec fn weighted_basis_prefix(a: Seq<FieldElement>, x: nat, m: nat) -> nat
    decreases m,
{
    if m == 0 {
        0
    } else {
        (weighted_basis_prefix(a, x, (m - 1) as nat) + (a[m as int]@ * lagrange_basis(
            (m - 1) as nat,
            a.len(),
            x,
        )) % modulus()) % modulus()
    }
}

/// A polynomial in the monomial basis, `a[0] + a[1] X + a[2] X^2 + ...`.
pub struct MonomialBasisPolynomial {
    /// The coefficients, lowest degree first.
    pub a: Vec<FieldElement>,
}

impl MonomialBasisPolynomial {
    /// Evaluates the polynomial at `X`.
    pub fn evaluate(&self, X: FieldElement) -> (r: FieldElement)
        ensures
            r@ == monomial_prefix(self.a@, X@, self.a@.len()),
    {
        let mut res = fq_zero();
        let mut X_pow = fq_one();
        let mut k: usize = 0;
        proof {
            lemma_modulus_large();
        }
        while k < self.a.len()
            invariant
                k <= self.a.len(),
                res@ == monomial_prefix(self.a@, X@, k as nat),
                X_pow@ == field_pow(X@, k as nat),
            decreases self.a.len() - k,
        {
            let term = fq_mul(&self.a[k], &X_pow);
            res = fq_add(&res, &term);
            let ghost before = X_pow@;
            X_pow = fq_mul(&X_pow, &X);
            proof {
                assert(before * X@ == X@ * before) by (nonlinear_arith);
            }
            k = k + 1;
        }
        res
    }

    /// The weighted sum of Lagrange basis values at `X` in which the `j`-th
    /// basis polynomial over the grid `0..a.len()` weighs coefficient `j + 1`.
    /// At a grid point `j` before the last, that is coefficient `j + 1` itself.
    pub fn lagrange_coeff(&self, X: FieldElement) -> (r: FieldElement)
        requires
            self.a@.len() > 0,
        ensures
            r@ == weighted_basis_prefix(self.a@, X@, (self.a@.len() - 1) as nat),
            X@ < self.a@.len() - 1 ==> r@ == self.a@[X@ as int + 1]@,
    {
        let mut res = fq_zero();
        let n = self.a.len();
        let mut j: usize = 0;
        proof {
            lemma_modulus_large();
        }
        while j < n - 1
            invariant
                n == self.a.len(),
                n > 0,
                j <= n - 1,
                res@ == weighted_basis_prefix(self.a@, X@, j as nat),
                X@ < n - 1 ==> res@ == (if X@ < j {
                    self.a@[X@ as int + 1]@
                } else {
                    0
                }),
            decreases n - j,
        {
            let l = LagrangeBasisPolynomial { i: j, n };
            let weight = self.a[j + 1];
            let value = l.evaluate(X);
            let term = fq_mul(&weight, &value);
            let ghost before = res@;
            res = fq_add(&res, &term);
            proof {
                if X@ < n - 1 {
                    use_type_invariant(&weight);
                    lemma_reduced(0);
                    lemma_reduced(weight@ as int);
                    lemma_reduced(before as int);
                    if X@ == j {
                        assert(weight@ * 1 == weight@);
                    } else {
                        assert(weight@ * 0 == 0);
                    }
                }
            }
            j = j + 1;
        }
        res
    }
}

} // verus!
