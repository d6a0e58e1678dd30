//! Multilinear extensions: a table of values on vertices of the boolean
//! hypercube, extended to every point by the indicator polynomials `chi_w`.
use crate::field::{
    fq_add, fq_from_i128, fq_mul, fq_one, fq_sub, fq_zero, lemma_modulus_large, lemma_reduced,
    lemma_residues, modulus, FieldElement,
};
use vstd::arithmetic::div_mod::{lemma_basic_div, lemma_div_denominator};
use vstd::arithmetic::power2::{lemma_pow2_pos, lemma_pow2_unfold, pow2};
use vstd::prelude::*;

verus! {

/// The number of binary digits of `i`, at least one.
pub open spec fn bit_width(i: nat) -> nat
    decreases i,
{
    if i < 2 {
        1
    } else {
        1 + bit_width(i / 2)
    }
}

/// The binary digit of `i` of weight `2^k`.
pub open spec fn bit_at(i: nat, k: nat) -> bool {
    (i / pow2(k)) % 2 == 1
}

/// The binary expansion of `i`, most significant digit first, padded with
/// leading zeros to `n` digits; longer where `i` needs more.
pub open spec fn bitvec_spec(i: nat, n: nat) -> Seq<bool> {
    let len = if bit_width(i) > n {
        bit_width(i)
    } else {
        n
    };
    Seq::new(len, |k: int| bit_at(i, (len - 1 - k) as nat))
}

/// Dropping one more low digit halves the quotient.
pub proof fn lemma_shift_step(i: nat, k: nat)
    ensures
        i / pow2(k + 1) == (i / pow2(k)) / 2,
        pow2(k) > 0,
{
    lemma_pow2_pos(k);
    lemma_pow2_unfold(k + 1);
    lemma_div_denominator(i as int, pow2(k) as int, 2);
    assert(pow2(k) * 2 == 2 * pow2(k)) by (nonlinear_arith);
}

/// The binary expansion of `i`, most significant digit first, padded with
/// leading zeros to `n` digits.
pub fn number_to_bitvec(i: usize, n: usize) -> (r: Vec<bool>)
    ensures
        r@ == bitvec_spec(i as nat, n as nat),
{
    let mut low_first: Vec<bool> = Vec::new();
    let mut q: usize = i;
    proof {
        vstd::arithmetic::power2::lemma2_to64();
        assert(pow2(0) == 1);
        assert((i as nat) / 1 == i as nat);
    }
    while q >= 2
        invariant
            q == (i as nat) / pow2(low_first@.len()),
            bit_width(i as nat) == low_first@.len() + bit_width(q as nat),
            forall|k: int| 0 <= k < low_first@.len() ==> low_first@[k] == bit_at(i as nat, k as nat),
        decreases q,
    {
        proof {
            lemma_shift_step(i as nat, low_first@.len());
        }
        low_first.push(q % 2 == 1);
        q = q / 2;
    }
    proof {
        lemma_shift_step(i as nat, low_first@.len());
    }
    low_first.push(q == 1);
    while low_first.len() < n
        invariant
            (i as nat) / pow2(low_first@.len()) == 0,
            low_first@.len() >= bit_width(i as nat),
            low_first@.len() == bit_width(i as nat) || low_first@.len() <= n,
            forall|k: int| 0 <= k < low_first@.len() ==> low_first@[k] == bit_at(i as nat, k as nat),
        decreases n - low_first.len(),
    {
        proof {
            lemma_shift_step(i as nat, low_first@.len());
        }
        low_first.push(false);
    }
    let len = low_first.len();
    let mut r: Vec<bool> = Vec::new();
    let mut k: usize = len;
    while k > 0
        invariant
            k <= len,
            len == low_first@.len(),
            r@.len() == len - k,
            forall|m: int| 0 <= m < r@.len() ==> r@[m] == low_first@[len - 1 - m],
        decreases k,
    {
        k = k - 1;
        r.push(low_first[k]);
    }
    assert(r@ =~= bitvec_spec(i as nat, n as nat));
    r
}

/// One factor of `chi_w`: `x w + (1 - x)(1 - w)`, with `w` read as 0 or 1.
pub open spec fn chi_factor(w: bool, x: int) -> int {
    let b: int = if w {
        1
    } else {
        0
    };
    x * b + (1 - x) * (1 - b)
}

/// The product of the first `m` factors of `chi_w(x)`.
pub open spec fn chi_prefix(w: Seq<bool>, x: Seq<i128>, m: nat) -> int
    decreases m,
{
    if m == 0 {
        1
    } else {
        chi_prefix(w, x, (m - 1) as nat) * chi_factor(w[m - 1], x[m - 1] as int)
    }
}

/// The multilinear indicator of the vertex `w`, as an integer polynomial in `x`.
pub open spec fn chi(w: Seq<bool>, x: Seq<i128>) -> int {
    chi_prefix(w, x, w.len())
}

/// The sum over the first `m` vertices of the table's value times the
/// vertex's indicator at `x`.
pub open spec fn extension_prefix(x: Seq<i128>, fws: Seq<i128>, m: nat) -> int
    decreases m,
{
    if m == 0 {
        0
    } else {
        extension_prefix(x, fws, (m - 1) as nat) + fws[m - 1] as int * chi(
            bitvec_spec((m - 1) as nat, x.len()),
            x,
        )
    }
}

/// The multilinear extension of the table `fws` at `x`, as an integer.
pub open spec fn extension(x: Seq<i128>, fws: Seq<i128>) -> int {
    extension_prefix(x, fws, fws.len())
}

/// The indicator `chi_w` at `x`, computed in the field.
pub fn chi_w(w: &Vec<bool>, x: &Vec<i128>) -> (r: FieldElement)
    requires
        w@.len() == x@.len(),
    ensures
        r@ == chi(w@, x@) % (modulus() as int),
{
    let mut res = fq_one();
    let one = fq_one();
    let mut j: usize = 0;
    proof {
        lemma_modulus_large();
        lemma_reduced(1);
    }
    while j < w.len()
        invariant
            j <= w@.len(),
            w@.len() == x@.len(),
            one@ == 1,
            res@ == chi_prefix(w@, x@, j as nat) % (modulus() as int),
        decreases w@.len() - j,
    {
        let xj = fq_from_i128(x[j]);
        let f = if w[j] {
            xj
        } else {
            fq_sub(&one, &xj)
        };
        let ghost before = chi_prefix(w@, x@, j as nat);
        let ghost fac = chi_factor(w@[j as int], x@[j as int] as int);
        res = fq_mul(&res, &f);
        proof {
            lemma_reduced(1);
            let xi = x@[j as int] as int;
            lemma_residues(1, xi);
            if w@[j as int] {
                assert(xi * 1 + (1 - xi) * (1 - 1) == xi) by (nonlinear_arith);
                assert(fac == xi);
            } else {
                assert(xi * 0 + (1 - xi) * (1 - 0) == 1 - xi) by (nonlinear_arith);
                assert(fac == 1 - xi);
            }
            assert(f@ == fac % (modulus() as int));
            lemma_residues(before, fac);
        }
        j = j + 1;
    }
    res
}

/// A number below `n` has at most `n` binary digits.
pub proof fn lemma_width_bounded(i: nat)
    ensures
        bit_width(i) <= i || i == 0,
    decreases i,
{
    if i >= 2 {
        lemma_width_bounded(i / 2);
    }
}

/// The multilinear extension of the table `fws`, whose entry `i` is the
/// value at the vertex that `number_to_bitvec(i, x.len())` spells, at `x`.
pub fn multilinear_f(x: &Vec<i128>, fws: &Vec<i128>) -> (r: FieldElement)
    requires
        fws@.len() == x@.len(),
    ensures
        r@ == extension(x@, fws@) % (modulus() as int),
        forall|i: nat|
            i < fws@.len() && is_vertex(x@, #[trigger] bitvec_spec(i, x@.len())) ==> r@
                == fws@[i as int] as int % (modulus() as int),
{
    let v = x.len();
    let mut res = fq_zero();
    let mut i: usize = 0;
    proof {
        lemma_modulus_large();
        lemma_reduced(0);
    }
    while i < v
        invariant
            i <= v,
            v == x@.len(),
            fws@.len() == v,
            res@ == extension_prefix(x@, fws@, i as nat) % (modulus() as int),
        decreases v - i,
    {
        let w = number_to_bitvec(i, v);
        proof {
            lemma_width_bounded(i as nat);
        }
        let c = chi_w(&w, x);
        let fw = fq_from_i128(fws[i]);
        let term = fq_mul(&fw, &c);
        let ghost before = extension_prefix(x@, fws@, i as nat);
        let ghost t = fws@[i as int] as int * chi(w@, x@);
        res = fq_add(&res, &term);
        proof {
            lemma_residues(fws@[i as int] as int, chi(w@, x@));
            lemma_residues(before, t);
        }
        i = i + 1;
    }
    proof {
        assert forall|i: nat|
            i < fws@.len() && is_vertex(x@, #[trigger] bitvec_spec(i, x@.len())) implies res@
            == fws@[i as int] as int % (modulus() as int) by {
            lemma_extension_agrees(x@, fws@, i);
        }
    }
    res
}

/// `x` is the vertex of the hypercube that `w` spells: 1 where `w` is set, 0 elsewhere.
pub open spec fn is_vertex(x: Seq<i128>, w: Seq<bool>) -> bool {
    x.len() == w.len() && forall|j: int|
        0 <= j < x.len() ==> #[trigger] x[j] == (if w[j] {
            1i128
        } else {
            0i128
        })
}

/// `w` and `u` agree in their first `m` places.
pub open spec fn agree_upto(w: Seq<bool>, u: Seq<bool>, m: nat) -> bool {
    forall|k: int| 0 <= k < m ==> w[k] == u[k]
}

/// At a vertex the indicator's partial product is 1 while `w` agrees with the
/// vertex, and 0 from the first place where it does not.
pub proof fn lemma_chi_on_vertex(w: Seq<bool>, u: Seq<bool>, x: Seq<i128>, m: nat)
    requires
        is_vertex(x, u),
        w.len() == u.len(),
        m <= w.len(),
    ensures
        chi_prefix(w, x, m) == (if agree_upto(w, u, m) {
            1int
        } else {
            0int
        }),
    decreases m,
{
    if m > 0 {
        lemma_chi_on_vertex(w, u, x, (m - 1) as nat);
        let before = chi_prefix(w, x, (m - 1) as nat);
        let xi = x[m - 1] as int;
        let fac = chi_factor(w[m - 1], xi);
        assert(x[m - 1] == (if u[m - 1] {
            1i128
        } else {
            0i128
        }));
        assert(fac == (if w[m - 1] == u[m - 1] {
            1int
        } else {
            0int
        })) by (nonlinear_arith)
            requires
                xi == 0 || xi == 1,
                xi == 1 <==> u[m - 1],
                fac == xi * (if w[m - 1] {
                    1int
                } else {
                    0int
                }) + (1 - xi) * (1 - (if w[m - 1] {
                    1int
                } else {
                    0int
                })),
        ;
        assert(before * fac == (if agree_upto(w, u, m) {
            1int
        } else {
            0int
        })) by {
            if agree_upto(w, u, m) {
                assert(agree_upto(w, u, (m - 1) as nat));
                assert(w[m - 1] == u[m - 1]);
                assert(1 * 1 == 1);
            } else if agree_upto(w, u, (m - 1) as nat) {
                assert(w[m - 1] != u[m - 1]);
                assert(before * 0 == 0);
            } else {
                assert(0 * fac == 0);
            }
        }
    }
}

/// Two numbers with the same low `m` binary digits and the same rest are equal.
pub proof fn lemma_same_bits(a: nat, b: nat, m: nat)
    requires
        forall|k: nat| k < m ==> bit_at(a, k) == bit_at(b, k),
        a / pow2(m) == b / pow2(m),
    ensures
        a == b,
    decreases m,
{
    if m == 0 {
        vstd::arithmetic::power2::lemma2_to64();
        assert(pow2(0) == 1);
    } else {
        let k = (m - 1) as nat;
        lemma_shift_step(a, k);
        lemma_shift_step(b, k);
        assert(bit_at(a, k) == bit_at(b, k));
        let qa = a / pow2(k);
        let qb = b / pow2(k);
        assert(qa == 2 * (qa / 2) + qa % 2);
        assert(qb == 2 * (qb / 2) + qb % 2);
        lemma_same_bits(a, b, k);
    }
}

/// Every number is below two to its own power.
pub proof fn lemma_below_pow2(n: nat)
    ensures
        n < pow2(n),
    decreases n,
{
    if n == 0 {
        lemma_pow2_pos(0);
    } else {
        lemma_below_pow2((n - 1) as nat);
        lemma_pow2_unfold(n);
    }
}

/// Distinct numbers below `n` have distinct expansions in `n` digits.
pub proof fn lemma_bitvec_injective(a: nat, b: nat, n: nat)
    requires
        a < n,
        b < n,
        bitvec_spec(a, n) == bitvec_spec(b, n),
    ensures
        a == b,
{
    lemma_width_bounded(a);
    lemma_width_bounded(b);
    lemma_below_pow2(n);
    lemma_basic_div(a as int, pow2(n) as int);
    lemma_basic_div(b as int, pow2(n) as int);
    let wa = bitvec_spec(a, n);
    let wb = bitvec_spec(b, n);
    assert(wa.len() == n && wb.len() == n);
    assert forall|k: nat| k < n implies bit_at(a, k) == bit_at(b, k) by {
        assert(wa[n - 1 - k] == bit_at(a, k));
        assert(wb[n - 1 - k] == bit_at(b, k));
    }
    lemma_same_bits(a, b, n);
}

/// At the vertex that spells `i`, the sum over the first `m` table entries is
/// entry `i` once `m` has passed it, and 0 before.
proof fn lemma_extension_prefix_on_vertex(x: Seq<i128>, fws: Seq<i128>, i: nat, m: nat)
    requires
        fws.len() == x.len(),
        i < fws.len(),
        m <= fws.len(),
        is_vertex(x, bitvec_spec(i, x.len())),
    ensures
        extension_prefix(x, fws, m) == (if i < m {
            fws[i as int] as int
        } else {
            0int
        }),
    decreases m,
{
    if m > 0 {
        let v = x.len();
        let k = (m - 1) as nat;
        lemma_extension_prefix_on_vertex(x, fws, i, k);
        let u = bitvec_spec(i, v);
        let w = bitvec_spec(k, v);
        lemma_width_bounded(k);
        assert(w.len() == v);
        lemma_chi_on_vertex(w, u, x, v);
        if k == i {
            assert(agree_upto(w, u, v));
            assert(fws[k as int] as int * 1 == fws[k as int] as int);
        } else {
            if agree_upto(w, u, v) {
                assert(w =~= u);
                lemma_bitvec_injective(k, i, v);
            }
            assert(fws[k as int] as int * 0 == 0);
        }
    }
}

/// On the hypercube the extension agrees with the table: at the vertex that
/// spells `i`, its value is entry `i`.
pub proof fn lemma_extension_agrees(x: Seq<i128>, fws: Seq<i128>, i: nat)
    requires
        fws.len() == x.len(),
        i < fws.len(),
        is_vertex(x, bitvec_spec(i, x.len())),
    ensures
        extension(x, fws) == fws[i as int],
{
    lemma_extension_prefix_on_vertex(x, fws, i, fws.len());
}

/// The number that the digits `w` spell, most significant first.
pub open spec fn vertex_index(w: Seq<bool>) -> nat
    decreases w.len(),
{
    if w.len() == 0 {
        0
    } else {
        2 * vertex_index(w.drop_last()) + (if w.last() {
            1nat
        } else {
            0nat
        })
    }
}

/// A number below `2^m` has at most `m` binary digits, for `m` at least one.
pub proof fn lemma_width_below_pow2(n: nat, m: nat)
    requires
        m >= 1,
        n < pow2(m),
    ensures
        bit_width(n) <= m,
    decreases m,
{
    if n >= 2 {
        lemma_pow2_unfold(m);
        if m == 1 {
            vstd::arithmetic::power2::lemma2_to64();
        } else {
            lemma_width_below_pow2(n / 2, (m - 1) as nat);
        }
    }
}

/// The digits of the number that `w` spells are those of `w`.
pub proof fn lemma_index_digits(w: Seq<bool>)
    ensures
        vertex_index(w) < pow2(w.len()),
        forall|k: nat| k < w.len() ==> bit_at(vertex_index(w), k) == w[w.len() - 1 - k],
    decreases w.len(),
{
    vstd::arithmetic::power2::lemma2_to64();
    if w.len() > 0 {
        let rest = w.drop_last();
        let n = vertex_index(w);
        lemma_index_digits(rest);
        lemma_pow2_unfold(w.len());
        assert(n / 2 == vertex_index(rest));
        assert forall|k: nat| k < w.len() implies bit_at(n, k) == w[w.len() - 1 - k] by {
            if k == 0 {
                assert(pow2(0) == 1);
                assert(n / 1 == n);
            } else {
                let j = (k - 1) as nat;
                lemma_pow2_pos(j);
                lemma_pow2_unfold(k);
                lemma_div_denominator(n as int, 2, pow2(j) as int);
                assert(bit_at(vertex_index(rest), j) == rest[rest.len() - 1 - j]);
            }
        }
    }
}

/// The expansion of the number that `w` spells, in as many digits, is `w`.
pub proof fn lemma_bitvec_of_index(w: Seq<bool>)
    requires
        w.len() > 0,
    ensures
        bitvec_spec(vertex_index(w), w.len()) == w,
{
    lemma_index_digits(w);
    lemma_width_below_pow2(vertex_index(w), w.len());
    assert(bitvec_spec(vertex_index(w), w.len()) =~= w);
}

/// On the hypercube the extension agrees with the table: at the boolean
/// point `x` with digits `w`, its value is the table's entry at the number
/// that `w` spells, where the table has such an entry.
pub proof fn lemma_extension_at_vertex(x: Seq<i128>, fws: Seq<i128>, w: Seq<bool>)
    requires
        fws.len() == x.len(),
        is_vertex(x, w),
        vertex_index(w) < fws.len(),
    ensures
        extension(x, fws) == fws[vertex_index(w) as int],
{
    lemma_bitvec_of_index(w);
    lemma_extension_agrees(x, fws, vertex_index(w));
}

/// One factor of the indicator is affine in its coordinate.
pub proof fn lemma_chi_factor_affine(w: bool, t: int)
    ensures
        chi_factor(w, t) == (1 - t) * chi_factor(w, 0) + t * chi_factor(w, 1),
{
    let b: int = if w {
        1
    } else {
        0
    };
    assert(t * b + (1 - t) * (1 - b) == (1 - t) * (0 * b + (1 - 0) * (1 - b)) + t * (1 * b + (1
        - 1) * (1 - b))) by (nonlinear_arith);
}

/// The indicator's partial product does not read coordinate `j` before it
/// reaches it, and from there on is affine in it.
pub proof fn lemma_chi_prefix_affine(w: Seq<bool>, x: Seq<i128>, j: int, t: i128, m: nat)
    requires
        0 <= j < x.len(),
        m <= x.len(),
        m <= w.len(),
    ensures
        m <= j ==> chi_prefix(w, x.update(j, t), m) == chi_prefix(w, x.update(j, 0), m)
            && chi_prefix(w, x.update(j, t), m) == chi_prefix(w, x.update(j, 1), m),
        m > j ==> chi_prefix(w, x.update(j, t), m) == (1 - t) * chi_prefix(w, x.update(j, 0), m)
            + t * chi_prefix(w, x.update(j, 1), m),
    decreases m,
{
    if m > 0 {
        let k = (m - 1) as nat;
        let xt = x.update(j, t);
        let x0 = x.update(j, 0);
        let x1 = x.update(j, 1);
        lemma_chi_prefix_affine(w, x, j, t, k);
        let at = chi_prefix(w, xt, k);
        let a0 = chi_prefix(w, x0, k);
        let a1 = chi_prefix(w, x1, k);
        let ft = chi_factor(w[k as int], xt[k as int] as int);
        let f0 = chi_factor(w[k as int], x0[k as int] as int);
        let f1 = chi_factor(w[k as int], x1[k as int] as int);
        let tt = t as int;
        if k == j {
            lemma_chi_factor_affine(w[k as int], tt);
            assert(at * ft == (1 - tt) * (a0 * f0) + tt * (a1 * f1)) by (nonlinear_arith)
                requires
                    at == a0,
                    at == a1,
                    ft == (1 - tt) * f0 + tt * f1,
            ;
        } else if k > j {
            assert(ft == f0 && ft == f1);
            assert(at * ft == (1 - tt) * (a0 * f0) + tt * (a1 * f1)) by (nonlinear_arith)
                requires
                    at == (1 - tt) * a0 + tt * a1,
                    ft == f0,
                    ft == f1,
            ;
        } else {
            assert(ft == f0 && ft == f1);
        }
    }
}

/// The sum over the first `m` table entries is affine in coordinate `j`.
proof fn lemma_extension_prefix_affine(x: Seq<i128>, fws: Seq<i128>, j: int, t: i128, m: nat)
    requires
        fws.len() == x.len(),
        0 <= j < x.len(),
        m <= fws.len(),
    ensures
        extension_prefix(x.update(j, t), fws, m) == (1 - t) * extension_prefix(
            x.update(j, 0),
            fws,
            m,
        ) + t * extension_prefix(x.update(j, 1), fws, m),
    decreases m,
{
    if m > 0 {
        let k = (m - 1) as nat;
        let v = x.len();
        let w = bitvec_spec(k, v);
        let tt = t as int;
        lemma_extension_prefix_affine(x, fws, j, t, k);
        lemma_width_bounded(k);
        assert(w.len() == v);
        lemma_chi_prefix_affine(w, x, j, t, v);
        let st = extension_prefix(x.update(j, t), fws, k);
        let s0 = extension_prefix(x.update(j, 0), fws, k);
        let s1 = extension_prefix(x.update(j, 1), fws, k);
        let ct = chi(w, x.update(j, t));
        let c0 = chi(w, x.update(j, 0));
        let c1 = chi(w, x.update(j, 1));
        let f = fws[k as int] as int;
        assert(st + f * ct == (1 - tt) * (s0 + f * c0) + tt * (s1 + f * c1)) by (nonlinear_arith)
            requires
                st == (1 - tt) * s0 + tt * s1,
                ct == (1 - tt) * c0 + tt * c1,
        ;
    }
}

/// The extension is affine in each coordinate: along coordinate `j` its
/// value at `t` lies on the line through its values at 0 and at 1.
pub proof fn lemma_extension_affine(x: Seq<i128>, fws: Seq<i128>, j: int, t: i128)
    requires
        fws.len() == x.len(),
        0 <= j < x.len(),
    ensures
        extension(x.update(j, t), fws) == (1 - t) * extension(x.update(j, 0), fws) + t * extension(
            x.update(j, 1),
            fws,
        ),
{
    lemma_extension_prefix_affine(x, fws, j, t, fws.len());
}

/// The sum of the indicators of the first `m` vertices at `x`.
pub open spec fn indicator_sum(x: Seq<i128>, m: nat) -> int
    decreases m,
{
    if m == 0 {
        0
    } else {
        indicator_sum(x, (m - 1) as nat) + chi(bitvec_spec((m - 1) as nat, x.len()), x)
    }
}

/// The indicator's partial product reads only the places that it covers.
pub proof fn lemma_chi_prefix_local(
    w: Seq<bool>,
    u: Seq<bool>,
    x: Seq<i128>,
    y: Seq<i128>,
    m: nat,
)
    requires
        m <= w.len(),
        m <= u.len(),
        m <= x.len(),
        m <= y.len(),
        forall|k: int| 0 <= k < m ==> w[k] == u[k] && x[k] == y[k],
    ensures
        chi_prefix(w, x, m) == chi_prefix(u, y, m),
    decreases m,
{
    if m > 0 {
        lemma_chi_prefix_local(w, u, x, y, (m - 1) as nat);
    }
}

/// The expansion of `2 q + b` is that of `q` followed by the digit `b`.
pub proof fn lemma_bitvec_double(q: nat, b: bool, v: nat)
    requires
        v >= 2,
        q < pow2((v - 1) as nat),
    ensures
        bitvec_spec(
            2 * q + (if b {
                1nat
            } else {
                0nat
            }),
            v,
        ) == bitvec_spec(q, (v - 1) as nat).push(b),
{
    let bit: nat = if b {
        1
    } else {
        0
    };
    let n = 2 * q + bit;
    lemma_pow2_unfold(v);
    lemma_width_below_pow2(n, v);
    lemma_width_below_pow2(q, (v - 1) as nat);
    vstd::arithmetic::power2::lemma2_to64();
    let left = bitvec_spec(n, v);
    let right = bitvec_spec(q, (v - 1) as nat).push(b);
    assert(left.len() == v);
    assert(right.len() == v);
    assert(n / 2 == q);
    assert forall|k: int| 0 <= k < v implies left[k] == right[k] by {
        if k == v - 1 {
            assert(pow2(0) == 1);
            assert(n / 1 == n);
            assert(left[k] == bit_at(n, 0));
        } else {
            let p = (v - 2 - k) as nat;
            lemma_pow2_pos(p);
            lemma_pow2_unfold(p + 1);
            lemma_div_denominator(n as int, 2, pow2(p) as int);
            assert(left[k] == bit_at(n, p + 1));
            assert(right[k] == bit_at(q, p));
        }
    }
    assert(left =~= right);
}

/// Two vertices that differ in the last digit only have indicators that add
/// up to the indicator of their common part, at the point without its last
/// coordinate.
proof fn lemma_indicator_pairs(x: Seq<i128>, m: nat)
    requires
        x.len() >= 2,
        m <= pow2((x.len() - 1) as nat),
    ensures
        indicator_sum(x, 2 * m) == indicator_sum(x.drop_last(), m),
    decreases m,
{
    if m > 0 {
        let q = (m - 1) as nat;
        let v = x.len();
        let y = x.drop_last();
        let last = x[v - 1] as int;
        lemma_indicator_pairs(x, q);
        let w = bitvec_spec(q, (v - 1) as nat);
        lemma_width_below_pow2(q, (v - 1) as nat);
        assert(w.len() == v - 1);
        lemma_bitvec_double(q, false, v);
        lemma_bitvec_double(q, true, v);
        let w0 = w.push(false);
        let w1 = w.push(true);
        lemma_chi_prefix_local(w0, w, x, y, (v - 1) as nat);
        lemma_chi_prefix_local(w1, w, x, y, (v - 1) as nat);
        let c = chi_prefix(w, y, (v - 1) as nat);
        assert(chi(w, y) == c);
        assert(chi(w0, x) == c * chi_factor(false, last));
        assert(chi(w1, x) == c * chi_factor(true, last));
        assert(c * chi_factor(false, last) + c * chi_factor(true, last) == c) by (nonlinear_arith)
            requires
                chi_factor(false, last) == last * 0 + (1 - last) * (1 - 0),
                chi_factor(true, last) == last * 1 + (1 - last) * (1 - 1),
        ;
        assert(bitvec_spec((2 * q) as nat, v) == w0);
        assert(bitvec_spec((2 * q + 1) as nat, v) == w1);
        assert(indicator_sum(x, (2 * q + 1) as nat) == indicator_sum(x, (2 * q) as nat) + chi(
            w0,
            x,
        ));
        assert(indicator_sum(x, (2 * q + 2) as nat) == indicator_sum(x, (2 * q + 1) as nat) + chi(
            w1,
            x,
        ));
        assert(2 * m == 2 * q + 2);
        assert(indicator_sum(y, m) == indicator_sum(y, q) + chi(w, y));
    }
}

/// At every point the indicators of all the vertices of the hypercube add up to 1.
pub proof fn lemma_indicators_sum_to_one(x: Seq<i128>)
    requires
        x.len() >= 1,
    ensures
        indicator_sum(x, pow2(x.len())) == 1,
    decreases x.len(),
{
    vstd::arithmetic::power2::lemma2_to64();
    if x.len() == 1 {
        let first = x[0] as int;
        let w0 = bitvec_spec(0, 1);
        let w1 = bitvec_spec(1, 1);
        assert(pow2(0) == 1 && pow2(1) == 2);
        assert(w0.len() == 1 && w1.len() == 1);
        assert(!w0[0]);
        assert(w1[0]);
        assert(chi_prefix(w0, x, 0) == 1 && chi_prefix(w1, x, 0) == 1);
        assert(chi(w0, x) == 1 * chi_factor(false, first));
        assert(chi(w1, x) == 1 * chi_factor(true, first));
        assert(chi_factor(false, first) + chi_factor(true, first) == 1) by (nonlinear_arith)
            requires
                chi_factor(false, first) == first * 0 + (1 - first) * (1 - 0),
                chi_factor(true, first) == first * 1 + (1 - first) * (1 - 1),
        ;
        assert(indicator_sum(x, 0) == 0);
        assert(indicator_sum(x, 1) == indicator_sum(x, 0) + chi(w0, x));
        assert(indicator_sum(x, 2) == indicator_sum(x, 1) + chi(w1, x));
    } else {
        let half = pow2((x.len() - 1) as nat);
        lemma_indicators_sum_to_one(x.drop_last());
        lemma_pow2_unfold(x.len());
        lemma_indicator_pairs(x, half);
    }
}

} // verus!
