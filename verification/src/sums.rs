//! Finite sums of integer-valued functions, and how they behave under the
//! field's reduction.
use crate::field::{lemma_residues, modulus};
use vstd::prelude::*;

verus! {

/// The sum of `f(0), ..., f(n - 1)`.
pub open spec fn sum_to(f: spec_fn(int) -> int, n: nat) -> int
    decreases n,
{
    if n == 0 {
        0
    } else {
        sum_to(f, (n - 1) as nat) + f(n - 1)
    }
}

/// Sums of termwise congruent summands are congruent.
pub proof fn lemma_sum_congruent(f: spec_fn(int) -> int, g: spec_fn(int) -> int, n: nat)
    requires
        forall|k: int| 0 <= k < n ==> #[trigger] f(k) % (modulus() as int) == g(k) % (modulus() as int),
    ensures
        sum_to(f, n) % (modulus() as int) == sum_to(g, n) % (modulus() as int),
    decreases n,
{
    if n > 0 {
        lemma_sum_congruent(f, g, (n - 1) as nat);
        lemma_residues(sum_to(f, (n - 1) as nat), f(n - 1));
        lemma_residues(sum_to(g, (n - 1) as nat), g(n - 1));
    }
}

/// Sums of termwise equal summands are equal.
pub proof fn lemma_sum_equal(f: spec_fn(int) -> int, g: spec_fn(int) -> int, n: nat)
    requires
        forall|k: int| 0 <= k < n ==> #[trigger] f(k) == g(k),
    ensures
        sum_to(f, n) == sum_to(g, n),
    decreases n,
{
    if n > 0 {
        lemma_sum_equal(f, g, (n - 1) as nat);
    }
}

/// A common factor of every summand can be taken out of the sum.
pub proof fn lemma_sum_scaled(f: spec_fn(int) -> int, c: int, g: spec_fn(int) -> int, n: nat)
    requires
        forall|k: int| 0 <= k < n ==> #[trigger] g(k) == f(k) * c,
    ensures
        sum_to(g, n) == sum_to(f, n) * c,
    decreases n,
{
    if n > 0 {
        lemma_sum_scaled(f, c, g, (n - 1) as nat);
        let s = sum_to(f, (n - 1) as nat);
        let t = f(n - 1);
        assert((s + t) * c == s * c + t * c) by (nonlinear_arith);
    }
}

/// The sum of termwise sums is the sum of the sums.
pub proof fn lemma_sum_split(
    f: spec_fn(int) -> int,
    g: spec_fn(int) -> int,
    s: spec_fn(int) -> int,
    n: nat,
)
    requires
        forall|k: int| 0 <= k < n ==> #[trigger] s(k) == f(k) + g(k),
    ensures
        sum_to(s, n) == sum_to(f, n) + sum_to(g, n),
    decreases n,
{
    if n > 0 {
        lemma_sum_split(f, g, s, (n - 1) as nat);
    }
}

/// A double sum may be taken in either order.
pub proof fn lemma_sum_exchange(h: spec_fn(int, int) -> int, n: nat, m: nat)
    ensures
        sum_to(|j: int| sum_to(|k: int| h(j, k), m), n) == sum_to(
            |k: int| sum_to(|j: int| h(j, k), n),
            m,
        ),
    decreases n,
{
    let rows = |j: int| sum_to(|k: int| h(j, k), m);
    let cols = |k: int| sum_to(|j: int| h(j, k), n);
    if n == 0 {
        let zero = |k: int| 0int;
        lemma_sum_equal(cols, zero, m);
        lemma_sum_scaled(zero, 0, zero, m);
    } else {
        let before = |k: int| sum_to(|j: int| h(j, k), (n - 1) as nat);
        let last = |k: int| h(n - 1, k);
        lemma_sum_exchange(h, (n - 1) as nat, m);
        assert(sum_to(rows, (n - 1) as nat) == sum_to(before, m));
        assert(rows(n - 1) == sum_to(last, m));
        lemma_sum_split(before, last, cols, m);
    }
}

} // verus!
