//! Univariate polynomials over the scalar field, as coefficient vectors
//! (lowest degree first), and the evaluation domain of the scheme.
use crate::field::{all_wf, fmod, fpow, fr_mul, fr_neg, fr_pow, fr_sub, modulus, scalar_vals, Scalar};
use ark_bls12_381::Fr;
use ark_ff::{BigInteger256, PrimeField};
use ark_poly::univariate::{DenseOrSparsePolynomial, DensePolynomial};
use ark_poly::{EvaluationDomain, GeneralEvaluationDomain, UVPolynomial};
use vstd::prelude::*;
use vstd::arithmetic::div_mod::*;
use vstd::arithmetic::power2::{lemma2_to64, lemma_pow2_pos, lemma_pow2_unfold, pow2};

verus! {

/// The value at `x` of the polynomial with coefficients `c`, reduced into the field.
pub open spec fn peval(c: Seq<int>, x: int) -> int
    decreases c.len(),
{
    if c.len() == 0 {
        0
    } else {
        fmod(c[0] + x * peval(c.drop_first(), x))
    }
}

/// The value at `x` of a polynomial held as scalars.
pub open spec fn pval(p: Seq<Scalar>, x: int) -> int {
    peval(scalar_vals(p), x)
}

/// `prod_k (x - roots[k])` in the field.
pub open spec fn vanish(roots: Seq<int>, x: int) -> int
    decreases roots.len(),
{
    if roots.len() == 0 {
        1
    } else {
        fmod(vanish(roots.drop_last(), x) * (x - roots.last()))
    }
}

/// `p` is the monic polynomial of degree `roots.len()` that vanishes on `roots`.
pub open spec fn is_vanishing(p: Seq<Scalar>, roots: Seq<int>) -> bool {
    &&& p.len() == roots.len() + 1
    &&& all_wf(p)
    &&& forall|x: int| #[trigger] pval(p, x) == vanish(roots, x)
}

/// The domain points `omega^points[k]`.
pub open spec fn point_roots(points: Seq<u32>, omega: int) -> Seq<int> {
    points.map_values(|p: u32| fpow(omega, p as nat))
}

/// `prod_{i < m, i != j} (roots[j] - roots[i])` in the field.
pub open spec fn deriv_upto(roots: Seq<int>, j: int, m: nat) -> int
    decreases m,
{
    if m == 0 {
        1
    } else if m - 1 == j {
        deriv_upto(roots, j, (m - 1) as nat)
    } else {
        fmod(deriv_upto(roots, j, (m - 1) as nat) * (roots[j] - roots[m - 1]))
    }
}

/// The derivative at `roots[j]` of the polynomial that vanishes on `roots`:
/// `prod_{i != j} (roots[j] - roots[i])`.
pub open spec fn deriv_at(roots: Seq<int>, j: int) -> int {
    deriv_upto(roots, j, roots.len())
}

/// The size of the evaluation domain built for `n` coefficients: the least
/// power of two that is at least `n`.
pub open spec fn domain_size(n: nat) -> nat
    decreases n,
{
    if n <= 1 {
        1
    } else {
        2 * domain_size(((n + 1) / 2) as nat)
    }
}

/// The domain for `n` coefficients has room for them, and stays within
/// `2^32` when `n` does.
pub proof fn lemma_domain_size_bounds(n: nat)
    ensures
        domain_size(n) >= 1,
        domain_size(n) >= n,
        n <= 0x1_0000_0000 ==> domain_size(n) <= 0x1_0000_0000,
{
    lemma2_to64();
    lemma_domain_size_pow2(n, 32);
}

proof fn lemma_domain_size_pow2(n: nat, k: nat)
    ensures
        domain_size(n) >= 1,
        domain_size(n) >= n,
        n <= pow2(k) ==> domain_size(n) <= pow2(k),
    decreases n,
{
    lemma_pow2_pos(k);
    if n > 1 {
        let h = ((n + 1) / 2) as nat;
        assert(domain_size(n) == 2 * domain_size(h));
        if k > 0 {
            lemma_pow2_unfold(k);
            let p = pow2((k - 1) as nat);
            assert(n <= 2 * p ==> h <= p);
            lemma_domain_size_pow2(h, (k - 1) as nat);
        } else {
            lemma2_to64();
            lemma_domain_size_pow2(h, 0);
        }
    }
}

/// The generator of the multiplicative subgroup of order `size`.
pub uninterp spec fn domain_generator(size: nat) -> int;

/// Relies on ark_poly's `GeneralEvaluationDomain::new`: on this field (two-adicity
/// 32) it builds a radix-2 domain whose size is the least power of two not below `n`.
#[verifier::external_body]
pub(crate) fn domain_of(n: usize) -> (r: (usize, Scalar))
    requires
        n <= 0x1_0000_0000,
    ensures
        r.0 == domain_size(n as nat),
        r.1.wf(),
        r.1.val() == domain_generator(r.0 as nat),
{
    let d = GeneralEvaluationDomain::<Fr>::new(n).unwrap();
    let g = match &d {
        GeneralEvaluationDomain::Radix2(x) => x.group_gen,
        GeneralEvaluationDomain::MixedRadix(x) => x.group_gen,
    };
    (d.size(), Scalar { limbs: g.into_repr().0 })
}

/// Relies on ark_poly's `EvaluationDomain::ifft_in_place`: the coefficients of the
/// polynomial of degree below the domain size that takes `values[k]` at `g^k`.
#[verifier::external_body]
pub(crate) fn ifft(values: &Vec<Scalar>) -> (r: Vec<Scalar>)
    requires
        all_wf(values@),
        values.len() <= 0x1_0000_0000,
        values.len() == domain_size(values.len() as nat),
    ensures
        r.len() == values.len(),
        all_wf(r@),
        forall|k: nat|
            k < values.len() ==> #[trigger] pval(r@, fpow(domain_generator(values.len() as nat), k))
                == values@[k as int].val(),
{
    let d = GeneralEvaluationDomain::<Fr>::new(values.len()).unwrap();
    let mut v: Vec<Fr> = values.iter().map(|x| Fr::from_repr(BigInteger256(x.limbs)).unwrap()).collect();
    d.ifft_in_place(&mut v);
    v.iter().map(|x| Scalar { limbs: x.into_repr().0 }).collect()
}

/// Relies on ark_poly's `Mul` of two `DensePolynomial`s (leading zeros dropped).
#[verifier::external_body]
pub(crate) fn poly_mul(a: &Vec<Scalar>, b: &Vec<Scalar>) -> (r: Vec<Scalar>)
    requires
        all_wf(a@),
        all_wf(b@),
        a.len() + b.len() <= 0x1_0000_0000,
    ensures
        all_wf(r@),
        forall|x: int| #[trigger] pval(r@, x) == fmod(pval(a@, x) * pval(b@, x)),
        r.len() + 1 <= a.len() + b.len() || r.len() == 0,
        a.len() > 0 && b.len() > 0 && a@.last().val() == 1 && b@.last().val() == 1 ==> r.len() == a.len()
            + b.len() - 1 && r@.last().val() == 1,
{
    let pa = DensePolynomial::from_coefficients_vec(a.iter().map(|x| Fr::from_repr(BigInteger256(x.limbs)).unwrap()).collect());
    let pb = DensePolynomial::from_coefficients_vec(b.iter().map(|x| Fr::from_repr(BigInteger256(x.limbs)).unwrap()).collect());
    (&pa * &pb).coeffs.iter().map(|x| Scalar { limbs: x.into_repr().0 }).collect()
}

/// Relies on ark_poly's `Add` of two `DensePolynomial`s (leading zeros dropped).
#[verifier::external_body]
pub(crate) fn poly_add(a: &Vec<Scalar>, b: &Vec<Scalar>) -> (r: Vec<Scalar>)
    requires
        all_wf(a@),
        all_wf(b@),
    ensures
        all_wf(r@),
        r.len() <= a.len() || r.len() <= b.len(),
        r.len() > 0 ==> r@.last().val() != 0,
        forall|x: int| #[trigger] pval(r@, x) == fmod(pval(a@, x) + pval(b@, x)),
{
    let pa = DensePolynomial::from_coefficients_vec(a.iter().map(|x| Fr::from_repr(BigInteger256(x.limbs)).unwrap()).collect());
    let pb = DensePolynomial::from_coefficients_vec(b.iter().map(|x| Fr::from_repr(BigInteger256(x.limbs)).unwrap()).collect());
    (&pa + &pb).coeffs.iter().map(|x| Scalar { limbs: x.into_repr().0 }).collect()
}

/// Relies on ark_poly's `Div` of `DensePolynomial`s: the quotient by the monic
/// linear `d = x - c`, whose remainder is `a(c)`.
#[verifier::external_body]
pub(crate) fn poly_div_linear(a: &Vec<Scalar>, d: &Vec<Scalar>) -> (r: Vec<Scalar>)
    requires
        all_wf(a@),
        d.len() == 2,
        all_wf(d@),
        d@[1].val() == 1,
    ensures
        all_wf(r@),
        r.len() < a.len() || r.len() == 0,
        forall|x: int| #[trigger] pval(a@, x) == fmod(pval(r@, x) * pval(d@, x) + pval(a@, fmod(-d@[0].val()))),
{
    let pa = DensePolynomial::from_coefficients_vec(a.iter().map(|x| Fr::from_repr(BigInteger256(x.limbs)).unwrap()).collect());
    let pd = DensePolynomial::from_coefficients_vec(d.iter().map(|x| Fr::from_repr(BigInteger256(x.limbs)).unwrap()).collect());
    (&pa / &pd).coeffs.iter().map(|x| Scalar { limbs: x.into_repr().0 }).collect()
}

/// Relies on ark_poly's `DenseOrSparsePolynomial::divide_with_q_and_r` by a monic
/// divisor: `a = q * d + r` with `r` of lower degree than `d`.
#[verifier::external_body]
pub(crate) fn poly_div_rem(a: &Vec<Scalar>, d: &Vec<Scalar>) -> (r: (Vec<Scalar>, Vec<Scalar>))
    requires
        all_wf(a@),
        all_wf(d@),
        d.len() > 0,
        d@.last().val() == 1,
    ensures
        all_wf(r.0@),
        all_wf(r.1@),
        r.0.len() == 0 || r.0.len() + d.len() <= a.len() + 1,
        r.0.len() > 0 ==> r.0@.last().val() != 0,
        r.1.len() < d.len(),
        forall|x: int| #[trigger] pval(a@, x) == fmod(pval(r.0@, x) * pval(d@, x) + pval(r.1@, x)),
{
    let pa = DensePolynomial::from_coefficients_vec(a.iter().map(|x| Fr::from_repr(BigInteger256(x.limbs)).unwrap()).collect());
    let pd = DensePolynomial::from_coefficients_vec(d.iter().map(|x| Fr::from_repr(BigInteger256(x.limbs)).unwrap()).collect());
    let (q, r) = DenseOrSparsePolynomial::from(pa).divide_with_q_and_r(&DenseOrSparsePolynomial::from(pd)).unwrap();
    (q.coeffs.iter().map(|x| Scalar { limbs: x.into_repr().0 }).collect(), r.coeffs.iter().map(|x| Scalar { limbs: x.into_repr().0 }).collect())
}

proof fn lemma_fmod_one()
    ensures
        fmod(1) == 1,
        modulus() > 0x1_0000_0000_0000_0000,
{
    lemma_small_mod(1, modulus() as nat);
}

proof fn lemma_one_eval(x: int)
    ensures
        peval(seq![1int], x) == 1,
{
    lemma_fmod_one();
    assert(seq![1int].drop_first() =~= Seq::<int>::empty());
    assert(peval(Seq::<int>::empty(), x) == 0);
    assert(x * 0 == 0);
    assert(peval(seq![1int], x) == fmod(1 + x * 0));
}

proof fn lemma_linear_eval(c0: int, x: int, root: int)
    requires
        c0 == fmod(-root),
    ensures
        peval(seq![c0, 1], x) == fmod(x - root),
{
    lemma_fmod_one();
    let s = seq![c0, 1];
    assert(s.drop_first() =~= seq![1int]);
    lemma_one_eval(x);
    lemma_add_mod_noop_right(x, -root, modulus());
}

/// The polynomial `x - root`.
pub fn linear_factor(root: &Scalar) -> (r: Vec<Scalar>)
    requires
        root.wf(),
    ensures
        r.len() == 2,
        all_wf(r@),
        r@[1].val() == 1,
        r@[0].val() == fmod(-root.val()),
        forall|x: int| #[trigger] pval(r@, x) == fmod(x - root.val()),
{
    let r = vec![fr_neg(root), Scalar::one()];
    proof {
        assert(scalar_vals(r@) =~= seq![r@[0].val(), 1]);
        assert forall|x: int| #[trigger] pval(r@, x) == fmod(x - root.val()) by {
            lemma_linear_eval(r@[0].val(), x, root.val());
        }
    }
    r
}

/// The monic polynomial `prod_k (x - roots[k])`.
pub fn vanishing_poly(roots: &Vec<Scalar>) -> (r: Vec<Scalar>)
    requires
        all_wf(roots@),
        roots.len() < 0x8000_0000,
    ensures
        is_vanishing(r@, scalar_vals(roots@)),
        r@.last().val() == 1,
{
    let mut acc: Vec<Scalar> = vec![Scalar::one()];
    proof {
        lemma_fmod_one();
        assert(scalar_vals(acc@) =~= seq![1int]);
        assert(seq![1int].drop_first() =~= Seq::<int>::empty());
        assert(scalar_vals(roots@).take(0) =~= Seq::<int>::empty());
        assert forall|x: int| #[trigger] pval(acc@, x) == vanish(scalar_vals(roots@).take(0), x) by {
            lemma_one_eval(x);
        }
    }
    let mut i: usize = 0;
    while i < roots.len()
        invariant
            i <= roots.len(),
            all_wf(roots@),
            roots.len() < 0x8000_0000,
            is_vanishing(acc@, scalar_vals(roots@).take(i as int)),
            acc@.last().val() == 1,
        decreases roots.len() - i,
    {
        let f = linear_factor(&roots[i]);
        let next = poly_mul(&acc, &f);
        proof {
            let pre = scalar_vals(roots@).take(i as int);
            let post = scalar_vals(roots@).take(i as int + 1);
            assert(post.drop_last() =~= pre);
            assert(post.last() == roots@[i as int].val());
            assert forall|x: int| #[trigger] pval(next@, x) == vanish(post, x) by {
                lemma_mul_mod_noop_right(vanish(pre, x), x - roots@[i as int].val(), modulus());
            }
        }
        acc = next;
        i = i + 1;
    }
    proof {
        assert(scalar_vals(roots@).take(roots.len() as int) =~= scalar_vals(roots@));
    }
    acc
}

/// The domain points `omega^points[k]`.
pub fn domain_points(points: &Vec<u32>, omega: &Scalar) -> (r: Vec<Scalar>)
    requires
        omega.wf(),
    ensures
        r.len() == points.len(),
        all_wf(r@),
        scalar_vals(r@) == point_roots(points@, omega.val()),
{
    let mut r: Vec<Scalar> = Vec::new();
    let mut i: usize = 0;
    while i < points.len()
        invariant
            i <= points.len(),
            omega.wf(),
            r.len() == i,
            all_wf(r@),
            forall|k: int| 0 <= k < i ==> #[trigger] r@[k].val() == fpow(omega.val(), points@[k] as nat),
        decreases points.len() - i,
    {
        r.push(fr_pow(omega, points[i] as u64));
        i = i + 1;
    }
    assert(scalar_vals(r@) =~= point_roots(points@, omega.val()));
    r
}

/// `prod_{i != j} (roots[j] - roots[i])`, the derivative at `roots[j]` of the
/// polynomial that vanishes on `roots`.
pub fn vanishing_derivative(roots: &Vec<Scalar>, j: usize) -> (r: Scalar)
    requires
        all_wf(roots@),
        j < roots.len(),
    ensures
        r.wf(),
        r.val() == deriv_at(scalar_vals(roots@), j as int),
{
    let mut acc = Scalar::one();
    proof { lemma_fmod_one(); }
    let mut i: usize = 0;
    while i < roots.len()
        invariant
            i <= roots.len(),
            j < roots.len(),
            all_wf(roots@),
            acc.wf(),
            acc.val() == deriv_upto(scalar_vals(roots@), j as int, i as nat),
        decreases roots.len() - i,
    {
        if i != j {
            let d = fr_sub(&roots[j], &roots[i]);
            acc = fr_mul(&acc, &d);
            proof {
                lemma_mul_mod_noop_right(
                    deriv_upto(scalar_vals(roots@), j as int, i as nat),
                    roots@[j as int].val() - roots@[i as int].val(),
                    modulus(),
                );
            }
        }
        i = i + 1;
    }
    acc
}

/// Every index is below `n`.
pub open spec fn indices_in_range(points: Seq<u32>, n: int) -> bool {
    forall|k: int| 0 <= k < points.len() ==> (#[trigger] points[k] as int) < n
}

/// No index appears twice.
pub open spec fn indices_distinct(points: Seq<u32>) -> bool {
    forall|a: int, b: int| 0 <= a < b < points.len() ==> #[trigger] points[a] != #[trigger] points[b]
}

/// Whether no index appears twice.
pub fn check_distinct(points: &Vec<u32>) -> (r: bool)
    ensures
        r == indices_distinct(points@),
{
    let mut a: usize = 0;
    while a < points.len()
        invariant
            a <= points.len(),
            forall|x: int, y: int| 0 <= x < y < points.len() && x < a ==> #[trigger] points@[x] != #[trigger] points@[y],
        decreases points.len() - a,
    {
        let mut b: usize = a + 1;
        while b < points.len()
            invariant
                a < b <= points.len(),
                forall|y: int| a < y < b ==> points@[a as int] != #[trigger] points@[y],
            decreases points.len() - b,
        {
            if points[a] == points[b] {
                return false;
            }
            b = b + 1;
        }
        a = a + 1;
    }
    true
}

/// Whether all indices are below `n` and pairwise distinct.
pub fn check_indices(points: &Vec<u32>, n: usize) -> (r: bool)
    ensures
        r == (indices_in_range(points@, n as int) && indices_distinct(points@)),
{
    let mut a: usize = 0;
    while a < points.len()
        invariant
            a <= points.len(),
            forall|k: int| 0 <= k < a ==> (#[trigger] points@[k] as int) < n,
        decreases points.len() - a,
    {
        if points[a] as usize >= n {
            return false;
        }
        a = a + 1;
    }
    check_distinct(points)
}

} // verus!
