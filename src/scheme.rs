//! The aggregatable subvector commitment scheme: key generation, commitment,
//! opening, verification, updates and aggregation.
use crate::error::CustomError;
use crate::field::{
    all_wf, finv, fmod, wipe, wipe_all, fpow, fr_div, fr_inverse, fr_mul, fr_pow, fr_sub, lemma_finv_unique, modulus,
    scalar_vals, Scalar,
};
use crate::group::{
    g1_add, g1_add_of, g1_generator, g1_msm, g1_msm_of, g1_scale, g1_scale_of, g1_sub, g1_sub_of, g1_table,
    g1_table_of, g2_generator, g2_msm, g2_msm_of, g2_scale, g2_scale_of, g2_sub, g2_sub_of, g2_table, g2_table_of,
    pairing_check, pairings_equal, G1, G2,
};
use crate::poly::{
    check_distinct, check_indices, deriv_at, domain_generator, domain_of, domain_points, domain_size, ifft, indices_distinct,
    indices_in_range, is_vanishing, lemma_domain_size_bounds, peval, linear_factor, point_roots, poly_add,
    poly_div_linear, poly_div_rem, poly_mul, pval, vanish, vanishing_derivative, vanishing_poly,
};
use vstd::prelude::*;
use vstd::arithmetic::div_mod::*;

verus! {

/// The auxiliaries published for one position: `a_i = g1^{A(tau)/(tau - w^i)}`
/// and `u_i = g1^{(L_i(tau) - 1)/(tau - w^i)}`.
pub struct UpdateKey {
    pub a_i: G1,
    pub u_i: G1,
}

/// What the prover holds: the powers of `tau` in G1, the Lagrange-basis
/// commitments `l_i`, and one update key per position.
pub struct ProvingKey {
    pub list_g1_tau_i: Vec<G1>,
    pub list_l_i: Vec<G1>,
    pub list_update_keys: Vec<UpdateKey>,
}

/// What the verifier holds: the powers of `tau` in G1 and in G2, and
/// `a = g1^{A(tau)}`.
pub struct VerifyingKey {
    pub list_g1_tau_i: Vec<G1>,
    pub list_g2_tau_i: Vec<G2>,
    pub a: G1,
}

/// The keys made once by `key_gen`.
pub struct Parameters {
    pub proving_key: ProvingKey,
    pub verifying_key: VerifyingKey,
}

/// A commitment to a vector of scalars.
pub struct Commitment {
    pub commit: G1,
}

/// A proof that a commitment holds given values at given positions.
pub struct Proof {
    pub w: G1,
}

impl Commitment {
    pub fn equals(&self, o: &Commitment) -> (r: bool)
        ensures
            r == (self.commit == o.commit),
    {
        self.commit.equals(&o.commit)
    }
}

impl Proof {
    pub fn equals(&self, o: &Proof) -> (r: bool)
        ensures
            r == (self.w == o.w),
    {
        self.w.equals(&o.w)
    }
}

/// `w` generates the subgroup of order exactly `n`.
pub open spec fn is_primitive_root(w: int, n: nat) -> bool {
    &&& fpow(w, n) == 1
    &&& forall|k: nat| 0 < k < n ==> #[trigger] fpow(w, k) != 1
}

/// `1 / A'(w^i) = w^i / n` on the domain of size `n`.
pub open spec fn lagrange_scale(w: int, i: nat, n: int) -> int {
    fmod(fpow(w, i) * finv(n))
}

/// Whether `w` has order exactly `n`.
pub fn check_primitive_root(w: &Scalar, n: usize) -> (r: bool)
    requires
        w.wf(),
        n >= 1,
    ensures
        r == is_primitive_root(w.val(), n as nat),
{
    let one = Scalar::one();
    let mut cur = *w;
    proof {
        lemma_small_mod(1, modulus() as nat);
        lemma_small_mod(w.val() as nat, modulus() as nat);
        assert(fpow(w.val(), 0) == 1);
        assert(fpow(w.val(), 1) == fmod(w.val() * 1));
    }
    let mut k: usize = 1;
    while k < n
        invariant
            1 <= k <= n,
            w.wf(),
            one.val() == 1,
            cur.wf(),
            cur.val() == fpow(w.val(), k as nat),
            forall|j: nat| 0 < j < k ==> #[trigger] fpow(w.val(), j) != 1,
        decreases n - k,
    {
        if cur.equals(&one) {
            return false;
        }
        cur = fr_mul(w, &cur);
        k = k + 1;
    }
    cur.equals(&one)
}

/// The evaluation domain for `n` positions: its size, the least power of two
/// that is at least `n`, and its generator, checked to have exactly that order.
pub fn evaluation_domain(n: usize) -> (r: Result<(usize, Scalar), CustomError>)
    ensures
        match r {
            Ok((size, w)) => {
                &&& n <= 0x1_0000_0000
                &&& size == domain_size(n as nat)
                &&& 1 <= size <= 0x1_0000_0000
                &&& n <= size
                &&& w.wf()
                &&& w.val() == domain_generator(size as nat)
                &&& is_primitive_root(w.val(), size as nat)
            },
            Err(e) => {
                &&& e == CustomError::DomainUnavailable
                &&& (n > 0x1_0000_0000 || !is_primitive_root(
                    domain_generator(domain_size(n as nat)),
                    domain_size(n as nat),
                ))
            },
        },
{
    if n as u64 > 0x1_0000_0000u64 {
        return Err(CustomError::DomainUnavailable);
    }
    let (size, w) = domain_of(n);
    proof { lemma_domain_size_bounds(n as nat); }
    if check_primitive_root(&w, size) {
        Ok((size, w))
    } else {
        Err(CustomError::DomainUnavailable)
    }
}

/// The commitment `prod_i l_i^{values[i]}`; missing trailing values count as zero.
pub fn commit(prk_params: &ProvingKey, values: Vec<Scalar>) -> (r: Result<Commitment, CustomError>)
    requires
        all_wf(values@),
    ensures
        r.is_err() <==> values.len() == 0 || values.len() > prk_params.list_l_i.len(),
        r.is_err() ==> r == Err::<Commitment, CustomError>(CustomError::InvalidParameter),
        r.is_ok() ==> r.unwrap().commit == g1_msm_of(prk_params.list_l_i@, scalar_vals(values@)),
{
    if values.len() == 0 || values.len() > prk_params.list_l_i.len() {
        return Err(CustomError::InvalidParameter);
    }
    Ok(Commitment { commit: g1_msm(&prk_params.list_l_i, &values) })
}

/// The group elements of a list of proofs.
pub open spec fn proof_points(proofs: Seq<Proof>) -> Seq<G1> {
    proofs.map_values(|p: Proof| p.w)
}

/// The aggregation weights `1 / A_I'(roots[j])`.
pub open spec fn aggregation_weights(roots: Seq<int>) -> Seq<int> {
    Seq::new(roots.len(), |j: int| finv(deriv_at(roots, j)))
}

/// Combines single-position proofs for one commitment into one proof for all
/// of those positions: `W = prod_j W_j^{1 / A_I'(w^{i_j})}`.
pub fn aggregate_proofs(points: Vec<u32>, proofs: Vec<Proof>, omega: Scalar) -> (r: Result<Proof, CustomError>)
    requires
        omega.wf(),
    ensures
        points.len() != proofs.len() || !indices_distinct(points@) ==> r == Err::<Proof, CustomError>(
            CustomError::InvalidParameter,
        ),
        points.len() == proofs.len() && indices_distinct(points@) ==> (r.is_err() <==> exists|j: int|
            0 <= j < points.len() && #[trigger] deriv_at(point_roots(points@, omega.val()), j) == 0),
        points.len() == proofs.len() && indices_distinct(points@) && r.is_err() ==> r == Err::<Proof, CustomError>(
            CustomError::ArithmeticFailure,
        ),
        r.is_ok() ==> r.unwrap().w == g1_msm_of(
            proof_points(proofs@),
            aggregation_weights(point_roots(points@, omega.val())),
        ),
{
    if points.len() != proofs.len() || !check_distinct(&points) {
        return Err(CustomError::InvalidParameter);
    }
    let roots = domain_points(&points, &omega);
    let ghost rs = point_roots(points@, omega.val());
    let mut weights: Vec<Scalar> = Vec::new();
    let mut ws: Vec<G1> = Vec::new();
    let mut j: usize = 0;
    while j < points.len()
        invariant
            j <= points.len(),
            points.len() == proofs.len(),
            roots.len() == points.len(),
            all_wf(roots@),
            scalar_vals(roots@) == rs,
            rs == point_roots(points@, omega.val()),
            indices_distinct(points@),
            weights.len() == j,
            ws.len() == j,
            all_wf(weights@),
            forall|k: int| 0 <= k < j ==> #[trigger] weights@[k].val() == finv(deriv_at(rs, k)),
            forall|k: int| 0 <= k < j ==> #[trigger] ws@[k] == proofs@[k].w,
            forall|k: int| 0 <= k < j ==> #[trigger] deriv_at(rs, k) != 0,
        decreases points.len() - j,
    {
        let d = vanishing_derivative(&roots, j);
        match fr_inverse(&d) {
            None => {
                assert(deriv_at(point_roots(points@, omega.val()), j as int) == 0);
                return Err(CustomError::ArithmeticFailure);
            },
            Some(c) => {
                proof { lemma_finv_unique(d.val(), c.val()); }
                weights.push(c);
                ws.push(proofs[j].w.clone());
            },
        }
        j = j + 1;
    }
    proof {
        assert(scalar_vals(weights@) =~= aggregation_weights(rs));
        assert(ws@ =~= proof_points(proofs@));
    }
    Ok(Proof { w: g1_msm(&ws, &weights) })
}

/// `n` as a field element, with its inverse.
fn size_inverse(n: usize) -> (r: Scalar)
    requires
        n >= 1,
    ensures
        r.wf(),
        r.val() == finv(n as int),
{
    let s = Scalar::from_u64(n as u64);
    match fr_inverse(&s) {
        Some(v) => {
            proof { lemma_finv_unique(n as int, v.val()); }
            v
        },
        None => {
            assert(false);
            Scalar::zero()
        },
    }
}

/// `w^i / n`, the inverse of `A'(w^i)` on the domain of size `n`.
fn lagrange_factor(omega: &Scalar, point: u32, n: usize) -> (r: Scalar)
    requires
        omega.wf(),
        n >= 1,
    ensures
        r.wf(),
        r.val() == lagrange_scale(omega.val(), point as nat, n as int),
{
    let wi = fr_pow(omega, point as u64);
    fr_mul(&wi, &size_inverse(n))
}

/// The commitment after `delta` is added to the value at `point`:
/// `C' = C * l_j^delta`, with `l_j = a_j^{w^j / n}` taken from the update key.
pub fn update_commit(
    commit: &Commitment,
    delta: Scalar,
    point: u32,
    upk: &UpdateKey,
    omega: Scalar,
    n: usize,
) -> (r: Result<Commitment, CustomError>)
    requires
        delta.wf(),
        omega.wf(),
    ensures
        r.is_err() <==> n == 0 || point as int >= n,
        r.is_err() ==> r == Err::<Commitment, CustomError>(CustomError::InvalidParameter),
        r.is_ok() ==> r.unwrap().commit == g1_add_of(
            commit.commit,
            g1_scale_of(g1_scale_of(upk.a_i, lagrange_scale(omega.val(), point as nat, n as int)), delta.val()),
        ),
{
    if n == 0 || point as usize >= n {
        return Err(CustomError::InvalidParameter);
    }
    let c = lagrange_factor(&omega, point, n);
    let l = g1_scale(&upk.a_i, &c);
    Ok(Commitment { commit: g1_add(&commit.commit, &g1_scale(&l, &delta)) })
}

/// The correction `u_{ij} = (a_j^{1/(w^j - w^i)} * a_i^{1/(w^i - w^j)})^{w^j / n}`
/// that moves a proof for position `i` across an update at position `j`.
pub open spec fn cross_update_point(wi: int, wj: int, a_i: G1, a_j: G1, scale: int) -> G1 {
    g1_scale_of(
        g1_add_of(g1_scale_of(a_j, finv(fmod(wj - wi))), g1_scale_of(a_i, finv(fmod(wi - wj)))),
        scale,
    )
}

/// The proof for position `point_i` after `delta` is added to the value at
/// `point_j`: `W * u_i^delta` when the positions agree, else `W * u_{ij}^delta`.
pub fn update_proof(
    proof: &Proof,
    delta: Scalar,
    point_i: u32,
    point_j: u32,
    upk_i: &UpdateKey,
    upk_j: &UpdateKey,
    omega: Scalar,
    n: usize,
) -> (r: Result<Proof, CustomError>)
    requires
        delta.wf(),
        omega.wf(),
    ensures
        n == 0 || point_i as int >= n || point_j as int >= n ==> r == Err::<Proof, CustomError>(
            CustomError::InvalidParameter,
        ),
        n > 0 && (point_i as int) < n && point_i == point_j ==> r == Ok::<Proof, CustomError>(
            Proof { w: g1_add_of(proof.w, g1_scale_of(upk_i.u_i, delta.val())) },
        ),
        n > 0 && (point_i as int) < n && (point_j as int) < n && point_i != point_j ==> {
            let wi = fpow(omega.val(), point_i as nat);
            let wj = fpow(omega.val(), point_j as nat);
            &&& (r.is_err() <==> wi == wj)
            &&& r.is_err() ==> r == Err::<Proof, CustomError>(CustomError::ArithmeticFailure)
            &&& r.is_ok() ==> r.unwrap().w == g1_add_of(
                proof.w,
                g1_scale_of(
                    cross_update_point(wi, wj, upk_i.a_i, upk_j.a_i, lagrange_scale(omega.val(), point_j as nat, n as int)),
                    delta.val(),
                ),
            )
        },
{
    if n == 0 || point_i as usize >= n || point_j as usize >= n {
        return Err(CustomError::InvalidParameter);
    }
    if point_i == point_j {
        return Ok(Proof { w: g1_add(&proof.w, &g1_scale(&upk_i.u_i, &delta)) });
    }
    let wi = fr_pow(&omega, point_i as u64);
    let wj = fr_pow(&omega, point_j as u64);
    let dji = fr_sub(&wj, &wi);
    let dij = fr_sub(&wi, &wj);
    proof {
        lemma_small_mod(wi.val() as nat, modulus() as nat);
        lemma_small_mod(wj.val() as nat, modulus() as nat);
        if dji.val() == 0 {
            lemma_mod_equal_from_diff(wj.val(), wi.val());
        }
        if wi.val() == wj.val() {
            lemma_small_mod(0, modulus() as nat);
        }
    }
    let c1 = match fr_inverse(&dji) {
        Some(c) => c,
        None => {
            return Err(CustomError::ArithmeticFailure);
        },
    };
    let c2 = match fr_inverse(&dij) {
        Some(c) => c,
        None => {
            proof { lemma_mod_equal_from_diff(wi.val(), wj.val()); }
            return Err(CustomError::ArithmeticFailure);
        },
    };
    proof {
        lemma_finv_unique(dji.val(), c1.val());
        lemma_finv_unique(dij.val(), c2.val());
    }
    let w_ij = g1_add(&g1_scale(&upk_j.a_i, &c1), &g1_scale(&upk_i.a_i, &c2));
    let u_ij = g1_scale(&w_ij, &lagrange_factor(&omega, point_j, n));
    Ok(Proof { w: g1_add(&proof.w, &g1_scale(&u_ij, &delta)) })
}

/// Two reduced values whose difference is zero modulo the field order are equal.
proof fn lemma_mod_equal_from_diff(a: int, b: int)
    requires
        0 <= a < modulus(),
        0 <= b < modulus(),
        fmod(a - b) == 0,
    ensures
        a == b,
{
    let m = modulus();
    if a > b {
        lemma_small_mod((a - b) as nat, m as nat);
    } else if a < b {
        lemma_mod_add_multiples_vanish(a - b, m);
        lemma_small_mod((a - b + m) as nat, m as nat);
    }
}

/// The two pairing checks on update key `(a_i, u_i)` for position `point`:
/// `e(a_i, g2^tau / g2^{w^i}) == e(a, g2)` and
/// `e(l_i / g1, g2) == e(u_i, g2^tau / g2^{w^i})` with `l_i = a_i^{w^i / n}`.
pub open spec fn upk_checks(vk: VerifyingKey, point: u32, upk: UpdateKey, omega: int) -> bool {
    let g1 = vk.list_g1_tau_i@[0];
    let g2 = vk.list_g2_tau_i@[0];
    let n = vk.list_g1_tau_i@.len() - 1;
    let wi = fpow(omega, point as nat);
    let inner = g2_sub_of(vk.list_g2_tau_i@[1], g2_scale_of(g2, wi));
    let l = g1_scale_of(upk.a_i, lagrange_scale(omega, point as nat, n));
    &&& pairings_equal(upk.a_i, inner, vk.a, g2)
    &&& pairings_equal(g1_sub_of(l, g1), g2, upk.u_i, inner)
}

/// Whether update key `upk` is the one for position `point`.
pub fn verify_upk(vrk_params: &VerifyingKey, point: u32, upk: &UpdateKey, omega: Scalar) -> (r: Result<bool, CustomError>)
    requires
        omega.wf(),
    ensures
        r.is_err() <==> vrk_params.list_g1_tau_i.len() < 2 || vrk_params.list_g2_tau_i.len() < 2 || point as int
            >= vrk_params.list_g1_tau_i.len() - 1,
        r.is_err() ==> r == Err::<bool, CustomError>(CustomError::InvalidParameter),
        r.is_ok() ==> r.unwrap() == upk_checks(*vrk_params, point, *upk, omega.val()),
{
    if vrk_params.list_g1_tau_i.len() < 2 || vrk_params.list_g2_tau_i.len() < 2 || point as usize
        >= vrk_params.list_g1_tau_i.len() - 1 {
        return Err(CustomError::InvalidParameter);
    }
    let g1 = &vrk_params.list_g1_tau_i[0];
    let g2 = &vrk_params.list_g2_tau_i[0];
    let n = vrk_params.list_g1_tau_i.len() - 1;
    let wi = fr_pow(&omega, point as u64);
    let inner = g2_sub(&vrk_params.list_g2_tau_i[1], &g2_scale(g2, &wi));
    let rs1 = pairing_check(&upk.a_i, &inner, &vrk_params.a, g2);
    let l = g1_scale(&upk.a_i, &lagrange_factor(&omega, point, n));
    let rs2 = pairing_check(&g1_sub(&l, g1), g2, &upk.u_i, &inner);
    Ok(rs1 && rs2)
}

/// The value at position `k` of a vector padded with zeros.
pub open spec fn padded_val(values: Seq<Scalar>, k: int) -> int {
    if k < values.len() {
        values[k].val()
    } else {
        0
    }
}

/// `q` is the quotient of `Phi` by `A_I`: `Phi` has degree below `n` and takes
/// the (padded) `values` on the domain of size `n` generated by `w`, and
/// `Phi = q * A_I + rem` with `rem` of degree below `|I|`. `q` is reduced,
/// has no zero leading coefficient, and has degree at most `n - 1 - |I|`.
pub open spec fn is_opening_quotient(
    q: Seq<Scalar>,
    phi: Seq<Scalar>,
    rem: Seq<Scalar>,
    values: Seq<Scalar>,
    roots: Seq<int>,
    w: int,
    n: nat,
) -> bool {
    &&& is_primitive_root(w, n)
    &&& all_wf(q)
    &&& (q.len() > 0 ==> q.last().val() != 0)
    &&& q.len() + roots.len() <= n
    &&& phi.len() == n
    &&& forall|k: nat| k < n ==> #[trigger] pval(phi, fpow(w, k)) == padded_val(values, k as int)
    &&& rem.len() <= roots.len()
    &&& forall|x: int| #[trigger] pval(phi, x) == fmod(pval(q, x) * vanish(roots, x) + pval(rem, x))
}

/// The inputs that `prove_pos` rejects as invalid, once the key's size `n` is
/// known to have a domain.
pub open spec fn prove_input_invalid(n: nat, values: Seq<Scalar>, points: Seq<u32>) -> bool {
    ||| domain_size(n) != n
    ||| values.len() > n
    ||| points.len() > n
    ||| !indices_in_range(points, n as int)
    ||| !indices_distinct(points)
}

/// The proof `W = g1^{q(tau)}` that the committed vector holds `values` at
/// `points`, where `q = Phi / A_I`.
pub fn prove_pos(prk_params: &ProvingKey, values: Vec<Scalar>, points: Vec<u32>) -> (r: Result<Proof, CustomError>)
    requires
        all_wf(values@),
        points.len() < 0x8000_0000,
    ensures
        prk_params.list_g1_tau_i.len() == 0 ==> r == Err::<Proof, CustomError>(CustomError::InvalidParameter),
        prk_params.list_g1_tau_i.len() > 0 ==> {
            let n = (prk_params.list_g1_tau_i.len() - 1) as nat;
            let no_domain = n > 0x1_0000_0000 || !is_primitive_root(
                domain_generator(domain_size(n)),
                domain_size(n),
            );
            &&& no_domain ==> r == Err::<Proof, CustomError>(CustomError::DomainUnavailable)
            &&& !no_domain ==> (r.is_err() <==> prove_input_invalid(n, values@, points@))
            &&& !no_domain && r.is_err() ==> r == Err::<Proof, CustomError>(CustomError::InvalidParameter)
            &&& r.is_ok() ==> exists|q: Seq<Scalar>, phi: Seq<Scalar>, rem: Seq<Scalar>|
                #[trigger] is_opening_quotient(q, phi, rem, values@, point_roots(points@, domain_generator(n)), domain_generator(n), n)
                && r.unwrap().w == g1_msm_of(prk_params.list_g1_tau_i@, scalar_vals(q))
        },
{
    if prk_params.list_g1_tau_i.len() == 0 {
        return Err(CustomError::InvalidParameter);
    }
    let n = prk_params.list_g1_tau_i.len() - 1;
    let (size, omega) = match evaluation_domain(n) {
        Ok(d) => d,
        Err(e) => {
            return Err(e);
        },
    };
    if size != n || values.len() > n || points.len() > n || !check_indices(&points, n) {
        return Err(CustomError::InvalidParameter);
    }
    let mut padded = values.clone();
    while padded.len() < n
        invariant
            values.len() <= padded.len() <= n,
            all_wf(padded@),
            forall|k: int| 0 <= k < padded.len() ==> #[trigger] padded@[k].val() == padded_val(values@, k),
        decreases n - padded.len(),
    {
        padded.push(Scalar::zero());
    }
    let phi = ifft(&padded);
    let roots = domain_points(&points, &omega);
    let a = vanishing_poly(&roots);
    let (q, rem) = poly_div_rem(&phi, &a);
    proof {
        let rs = point_roots(points@, omega.val());
        assert forall|x: int| #[trigger] pval(phi@, x) == fmod(pval(q@, x) * vanish(rs, x) + pval(rem@, x)) by {
            assert(pval(a@, x) == vanish(rs, x));
        }
        assert forall|k: nat| k < n implies #[trigger] pval(phi@, fpow(omega.val(), k)) == padded_val(values@, k as int) by {
            assert(pval(phi@, fpow(domain_generator(padded.len() as nat), k)) == padded@[k as int].val());
        }
        assert(is_opening_quotient(q@, phi@, rem@, values@, rs, omega.val(), n as nat));
    }
    Ok(Proof { w: g1_msm(&prk_params.list_g1_tau_i, &q) })
}

/// The inputs whose positions `verify_pos` examines: matching lengths, and
/// distinct positions below the key's size.
pub open spec fn verify_input_ok(vk: VerifyingKey, point_values: Seq<Scalar>, points: Seq<u32>) -> bool {
    &&& point_values.len() == points.len()
    &&& indices_in_range(points, vk.list_g2_tau_i.len() - 1)
    &&& indices_distinct(points)
}

/// The key has too few powers of `tau` for `count` positions.
pub open spec fn key_too_small(vk: VerifyingKey, count: nat) -> bool {
    count >= vk.list_g2_tau_i.len() || count > vk.list_g1_tau_i.len()
}

/// The pairing equation `e(C / g1^{R(tau)}, g2) == e(W, g2^{A(tau)})`.
pub open spec fn opening_accepted(vk: VerifyingKey, c: G1, w: G1, rpoly: Seq<Scalar>, apoly: Seq<Scalar>) -> bool {
    pairings_equal(
        g1_sub_of(c, g1_msm_of(vk.list_g1_tau_i@, scalar_vals(rpoly))),
        vk.list_g2_tau_i@[0],
        w,
        g2_msm_of(vk.list_g2_tau_i@, scalar_vals(apoly)),
    )
}

/// `q` is the quotient of `a` by `x - root`: `a(x) = q(x) * (x - root) + a(root)`.
pub open spec fn is_linear_quotient(q: Seq<Scalar>, a: Seq<Scalar>, root: int) -> bool {
    &&& all_wf(q)
    &&& q.len() < a.len()
    &&& forall|x: int| #[trigger] pval(a, x) == fmod(pval(q, x) * (x - root) + pval(a, root))
}

/// `sum_{j < m} vals[j] / A_I'(roots[j]) * qs[j](x)`: the interpolation
/// polynomial of `vals` on `roots` at `x`, with `qs[j] = A_I / (x - roots[j])`.
pub open spec fn lagrange_sum(qs: Seq<Seq<Scalar>>, roots: Seq<int>, vals: Seq<int>, x: int, m: nat) -> int
    decreases m,
{
    if m == 0 {
        0
    } else {
        let j = m - 1;
        fmod(lagrange_sum(qs, roots, vals, x, j as nat) + fmod(pval(qs[j], x) * fmod(vals[j] * finv(
            deriv_at(roots, j),
        ))))
    }
}

/// `rpoly` is `R_I`, the interpolation polynomial of `vals` on `roots`, built
/// from the vanishing polynomial `apoly` of `roots`, reduced and with no zero
/// leading coefficient.
pub open spec fn is_interpolation(rpoly: Seq<Scalar>, apoly: Seq<Scalar>, roots: Seq<int>, vals: Seq<int>) -> bool {
    &&& is_vanishing(apoly, roots)
    &&& all_wf(rpoly)
    &&& (rpoly.len() > 0 ==> rpoly.last().val() != 0)
    &&& rpoly.len() <= roots.len()
    &&& exists|qs: Seq<Seq<Scalar>>|
        {
            &&& qs.len() == roots.len()
            &&& forall|j: int| 0 <= j < roots.len() ==> #[trigger] is_linear_quotient(qs[j], apoly, roots[j])
            &&& forall|x: int| #[trigger] pval(rpoly, x) == lagrange_sum(qs, roots, vals, x, roots.len())
        }
}

/// Two positions meet in the field: some `A_I'(roots[j])` is zero.
pub open spec fn roots_collide(roots: Seq<int>) -> bool {
    exists|j: int| 0 <= j < roots.len() && #[trigger] deriv_at(roots, j) == 0
}

proof fn lemma_const_eval(s: int, x: int)
    requires
        0 <= s < modulus(),
    ensures
        peval(seq![s], x) == s,
{
    assert(seq![s].drop_first() =~= Seq::<int>::empty());
    assert(peval(Seq::<int>::empty(), x) == 0);
    assert(x * 0 == 0);
    lemma_small_mod(s as nat, modulus() as nat);
}

/// Dividing by the linear factor of a reduced root gives a linear quotient.
proof fn lemma_linear_quotient(q: Seq<Scalar>, a: Seq<Scalar>, d0: int, root: int)
    requires
        0 <= root < modulus(),
        d0 == fmod(-root),
        forall|x: int| #[trigger] pval(a, x) == fmod(pval(q, x) * fmod(x - root) + pval(a, fmod(-d0))),
    ensures
        forall|x: int| #[trigger] pval(a, x) == fmod(pval(q, x) * (x - root) + pval(a, root)),
{
    let m = modulus();
    lemma_mod_twice_neg(root);
    assert forall|x: int| #[trigger] pval(a, x) == fmod(pval(q, x) * (x - root) + pval(a, root)) by {
        let c = pval(a, root);
        lemma_mul_mod_noop_right(pval(q, x), x - root, m);
        lemma_add_mod_noop(pval(q, x) * fmod(x - root), c, m);
        lemma_add_mod_noop(pval(q, x) * (x - root), c, m);
    }
}

proof fn lemma_mod_twice_neg(r: int)
    requires
        0 <= r < modulus(),
    ensures
        fmod(-fmod(-r)) == r,
{
    let m = modulus();
    if r == 0 {
        lemma_small_mod(0, m as nat);
    } else {
        lemma_mod_add_multiples_vanish(-r, m);
        lemma_small_mod((m - r) as nat, m as nat);
        lemma_mod_add_multiples_vanish(-(m - r), m);
        lemma_small_mod(r as nat, m as nat);
    }
}

/// Whether `proof` shows that `commit` holds `point_values` at `points`.
pub fn verify_pos(
    vrk_params: &VerifyingKey,
    commit: &Commitment,
    point_values: Vec<Scalar>,
    points: Vec<u32>,
    proof: &Proof,
    omega: Scalar,
) -> (r: Result<bool, CustomError>)
    requires
        omega.wf(),
        all_wf(point_values@),
        points.len() < 0x8000_0000,
    ensures
        vrk_params.list_g2_tau_i.len() == 0 ==> r == Err::<bool, CustomError>(CustomError::InvalidParameter),
        vrk_params.list_g2_tau_i.len() > 0 && !verify_input_ok(*vrk_params, point_values@, points@) ==> r == Ok::<
            bool,
            CustomError,
        >(false),
        vrk_params.list_g2_tau_i.len() > 0 && verify_input_ok(*vrk_params, point_values@, points@) ==> {
            let roots = point_roots(points@, omega.val());
            &&& key_too_small(*vrk_params, points.len() as nat) ==> r == Err::<bool, CustomError>(
                CustomError::InvalidParameter,
            )
            &&& !key_too_small(*vrk_params, points.len() as nat) ==> (r.is_err() <==> roots_collide(roots))
            &&& !key_too_small(*vrk_params, points.len() as nat) && r.is_err() ==> r == Err::<bool, CustomError>(
                CustomError::ArithmeticFailure,
            )
            &&& r.is_ok() ==> exists|rpoly: Seq<Scalar>, apoly: Seq<Scalar>|
                #[trigger] is_interpolation(rpoly, apoly, roots, scalar_vals(point_values@))
                    && r.unwrap() == opening_accepted(*vrk_params, commit.commit, proof.w, rpoly, apoly)
        },
{
    if vrk_params.list_g2_tau_i.len() == 0 {
        return Err(CustomError::InvalidParameter);
    }
    if point_values.len() != points.len() {
        return Ok(false);
    }
    let n = vrk_params.list_g2_tau_i.len() - 1;
    if !check_indices(&points, n) {
        return Ok(false);
    }
    if points.len() > n || points.len() > vrk_params.list_g1_tau_i.len() {
        return Err(CustomError::InvalidParameter);
    }
    let roots = domain_points(&points, &omega);
    let ghost rs = point_roots(points@, omega.val());
    let ghost vs = scalar_vals(point_values@);
    let a = vanishing_poly(&roots);
    // R(x) = sum_j v_j * (A(x) / (x - w^{i_j})) / A'(w^{i_j})
    let mut rpoly: Vec<Scalar> = Vec::new();
    let ghost mut qs: Seq<Seq<Scalar>> = Seq::empty();
    proof {
        assert forall|x: int| #[trigger] pval(rpoly@, x) == lagrange_sum(qs, rs, vs, x, 0) by {}
    }
    let mut j: usize = 0;
    while j < points.len()
        invariant
            j <= points.len(),
            points.len() < 0x8000_0000,
            roots.len() == points.len(),
            point_values.len() == points.len(),
            vrk_params.list_g2_tau_i.len() > 0,
            verify_input_ok(*vrk_params, point_values@, points@),
            !key_too_small(*vrk_params, points.len() as nat),
            all_wf(roots@),
            all_wf(point_values@),
            rs == point_roots(points@, omega.val()),
            scalar_vals(roots@) == rs,
            vs == scalar_vals(point_values@),
            is_vanishing(a@, rs),
            all_wf(rpoly@),
            rpoly.len() > 0 ==> rpoly@.last().val() != 0,
            rpoly.len() <= points.len(),
            qs.len() == j,
            forall|k: int| 0 <= k < j ==> #[trigger] is_linear_quotient(qs[k], a@, rs[k]),
            forall|k: int| 0 <= k < j ==> #[trigger] deriv_at(rs, k) != 0,
            forall|x: int| #[trigger] pval(rpoly@, x) == lagrange_sum(qs, rs, vs, x, j as nat),
        decreases points.len() - j,
    {
        let f = linear_factor(&roots[j]);
        let qj = poly_div_linear(&a, &f);
        proof { lemma_linear_quotient(qj@, a@, f@[0].val(), rs[j as int]); }
        let cj = vanishing_derivative(&roots, j);
        let s = match fr_div(&point_values[j], &cj) {
            Some(s) => s,
            None => {
                assert(deriv_at(rs, j as int) == 0);
                return Err(CustomError::ArithmeticFailure);
            },
        };
        let sv = vec![s];
        let term = poly_mul(&qj, &sv);
        let next = poly_add(&rpoly, &term);
        proof {
            let qs2 = qs.push(qj@);
            assert(scalar_vals(sv@) =~= seq![s.val()]);
            assert forall|x: int| #[trigger] pval(next@, x) == lagrange_sum(qs2, rs, vs, x, (j + 1) as nat) by {
                lemma_const_eval(s.val(), x);
                assert(qs2[j as int] == qj@);
                lemma_lagrange_sum_extend_prefix(qs, qj@, rs, vs, x, j as nat);
            }
            assert forall|k: int| 0 <= k < j + 1 implies #[trigger] is_linear_quotient(qs2[k], a@, rs[k]) by {
                if k < j {
                    assert(qs2[k] == qs[k]);
                }
            }
            qs = qs2;
        }
        rpoly = next;
        j = j + 1;
    }
    proof {
        assert(!roots_collide(rs));
        assert(is_interpolation(rpoly@, a@, rs, vs));
    }
    let rv = g1_msm(&vrk_params.list_g1_tau_i, &rpoly);
    let inner = g1_sub(&commit.commit, &rv);
    let av = g2_msm(&vrk_params.list_g2_tau_i, &a);
    Ok(pairing_check(&inner, &vrk_params.list_g2_tau_i[0], &proof.w, &av))
}

/// Appending a quotient leaves the earlier terms of the sum unchanged.
proof fn lemma_lagrange_sum_extend_prefix(
    qs: Seq<Seq<Scalar>>,
    q: Seq<Scalar>,
    roots: Seq<int>,
    vals: Seq<int>,
    x: int,
    m: nat,
)
    requires
        m <= qs.len(),
    ensures
        lagrange_sum(qs.push(q), roots, vals, x, m) == lagrange_sum(qs, roots, vals, x, m),
    decreases m,
{
    if m > 0 {
        let qs2 = qs.push(q);
        assert(qs2[m - 1] == qs[m - 1]);
        lemma_lagrange_sum_extend_prefix(qs, q, roots, vals, x, (m - 1) as nat);
    }
}

/// `[tau^0, tau^1, ..., tau^{m-1}]` in the field.
pub open spec fn tau_powers(tau: int, m: nat) -> Seq<int> {
    Seq::new(m, |k: int| fpow(tau, k as nat))
}

/// What `key_gen` builds from the trapdoor `tau` on the domain of size `size`
/// generated by `w`.
pub open spec fn keys_built_from(p: Parameters, tau: int, size: nat, w: int) -> bool {
    let pk = p.proving_key;
    let vk = p.verifying_key;
    let g1s = pk.list_g1_tau_i@;
    &&& g1s.len() == size + 1
    &&& vk.list_g1_tau_i@ == g1s
    &&& vk.list_g2_tau_i@.len() == size + 1
    &&& pk.list_l_i@.len() == size
    &&& pk.list_update_keys@.len() == size
    &&& exists|g1: G1| g1s == #[trigger] g1_table_of(g1, tau_powers(tau, size + 1))
    &&& exists|g2: G2| vk.list_g2_tau_i@ == #[trigger] g2_table_of(g2, tau_powers(tau, size + 1))
    &&& vk.a == g1_sub_of(g1s[size as int], g1s[0])
    &&& forall|i: int|
        0 <= i < size ==> {
            let d = finv(fmod(tau - fpow(w, i as nat)));
            let upk = #[trigger] pk.list_update_keys@[i];
            &&& upk.a_i == g1_scale_of(vk.a, d)
            &&& pk.list_l_i@[i] == g1_scale_of(upk.a_i, lagrange_scale(w, i as nat, size as int))
            &&& upk.u_i == g1_scale_of(g1_sub_of(pk.list_l_i@[i], g1s[0]), d)
        }
}

fn clone_points(v: &Vec<G1>) -> (r: Vec<G1>)
    ensures
        r@ == v@,
{
    let mut r: Vec<G1> = Vec::new();
    let mut i: usize = 0;
    while i < v.len()
        invariant
            i <= v.len(),
            r@ == v@.take(i as int),
        decreases v.len() - i,
    {
        r.push(v[i].clone());
        proof { assert(v@.take(i as int + 1) =~= v@.take(i as int).push(v@[i as int])); }
        i = i + 1;
    }
    proof { assert(v@.take(v.len() as int) =~= v@); }
    r
}

/// Trusted setup for vectors of length `n`, from the trapdoor `tau`, which the
/// caller draws at random. `tau` and the scratch derived from it are
/// overwritten with zero on every exit. The keys are built on the
/// domain of the least power-of-two size at least `n`.
pub fn key_gen(n: usize, tau: &mut Scalar) -> (r: Result<Parameters, CustomError>)
    requires
        old(tau).wf(),
    ensures
        final(tau).val() == 0,
        n == 0 ==> r == Err::<Parameters, CustomError>(CustomError::InvalidParameter),
        n > 0 ==> {
            let size = domain_size(n as nat);
            let w = domain_generator(size);
            &&& (n > 0x1_0000_0000 || !is_primitive_root(w, size)) <==> r == Err::<Parameters, CustomError>(
                CustomError::DomainUnavailable,
            )
            &&& r.is_err() ==> r == Err::<Parameters, CustomError>(CustomError::DomainUnavailable) || r == Err::<
                Parameters,
                CustomError,
            >(CustomError::ArithmeticFailure)
            &&& r == Err::<Parameters, CustomError>(CustomError::ArithmeticFailure) <==> (n <= 0x1_0000_0000
                && is_primitive_root(w, size) && exists|i: nat| i < size && #[trigger] fpow(w, i) == old(tau).val())
            &&& r.is_ok() ==> keys_built_from(r.unwrap(), old(tau).val(), size, w)
        },
{
    if n == 0 {
        wipe(tau);
        return Err(CustomError::InvalidParameter);
    }
    let (size, omega) = match evaluation_domain(n) {
        Ok(d) => d,
        Err(e) => {
            wipe(tau);
            return Err(e);
        },
    };
    let ghost w = omega.val();
    let g1 = g1_generator();
    let g2 = g2_generator();
    // curs = [1, tau, ..., tau^size]
    let mut curs: Vec<Scalar> = vec![Scalar::one()];
    let mut cur = *tau;
    proof {
        lemma_small_mod(1, modulus() as nat);
        lemma_small_mod(tau.val() as nat, modulus() as nat);
        assert(fpow(tau.val(), 0) == 1);
        assert(fpow(tau.val(), 1) == fmod(tau.val() * 1));
    }
    let mut k: usize = 0;
    while k < size
        invariant
            1 <= size <= 0x1_0000_0000,
            k <= size,
            tau.wf(),
            *tau == *old(tau),
            cur.wf(),
            cur.val() == fpow(tau.val(), (k + 1) as nat),
            curs.len() == k + 1,
            all_wf(curs@),
            forall|m: int| 0 <= m <= k ==> #[trigger] curs@[m].val() == fpow(tau.val(), m as nat),
        decreases size - k,
    {
        curs.push(cur);
        cur = fr_mul(tau, &cur);
        k = k + 1;
    }
    proof { assert(scalar_vals(curs@) =~= tau_powers(old(tau).val(), (size + 1) as nat)); }
    let list_g1_tau_i = g1_table(&g1, &curs);
    let list_g2_tau_i = g2_table(&g2, &curs);
    wipe_all(&mut curs);
    wipe(&mut cur);
    let g1_one = list_g1_tau_i[0].clone();
    let a = g1_sub(&list_g1_tau_i[size], &g1_one);
    let size_inv = size_inverse(size);
    let mut update_keys: Vec<UpdateKey> = Vec::new();
    let mut list_l_i: Vec<G1> = Vec::new();
    let mut i: usize = 0;
    while i < size
        invariant
            1 <= size <= 0x1_0000_0000,
            n > 0,
            n <= 0x1_0000_0000,
            size == domain_size(n as nat),
            w == domain_generator(size as nat),
            i <= size,
            tau.wf(),
            *tau == *old(tau),
            omega.wf(),
            w == omega.val(),
            is_primitive_root(w, size as nat),
            size_inv.wf(),
            size_inv.val() == finv(size as int),
            list_g1_tau_i.len() == size + 1,
            g1_one == list_g1_tau_i@[0],
            a == g1_sub_of(list_g1_tau_i@[size as int], list_g1_tau_i@[0]),
            update_keys.len() == i,
            list_l_i.len() == i,
            forall|m: nat| m < i ==> #[trigger] fpow(w, m) != tau.val(),
            forall|m: int|
                0 <= m < i ==> {
                    let d = finv(fmod(tau.val() - fpow(w, m as nat)));
                    let upk = #[trigger] update_keys@[m];
                    &&& upk.a_i == g1_scale_of(a, d)
                    &&& list_l_i@[m] == g1_scale_of(upk.a_i, lagrange_scale(w, m as nat, size as int))
                    &&& upk.u_i == g1_scale_of(g1_sub_of(list_l_i@[m], list_g1_tau_i@[0]), d)
                },
        decreases size - i,
    {
        let wi = fr_pow(&omega, i as u64);
        let mut diff = fr_sub(tau, &wi);
        let mut d = match fr_inverse(&diff) {
            Some(d) => d,
            None => {
                proof {
                    lemma_mod_equal_from_diff(tau.val(), wi.val());
                    assert(fpow(w, i as nat) == tau.val());
                }
                wipe(&mut diff);
                wipe(tau);
                return Err(CustomError::ArithmeticFailure);
            },
        };
        proof {
            lemma_finv_unique(diff.val(), d.val());
            if wi.val() == tau.val() {
                lemma_small_mod(0, modulus() as nat);
            }
        }
        wipe(&mut diff);
        let a_i = g1_scale(&a, &d);
        let c = fr_mul(&wi, &size_inv);
        let l_i = g1_scale(&a_i, &c);
        let u_i = g1_scale(&g1_sub(&l_i, &g1_one), &d);
        update_keys.push(UpdateKey { a_i, u_i });
        list_l_i.push(l_i);
        wipe(&mut d);
        i = i + 1;
    }
    wipe(tau);
    let vk_g1 = clone_points(&list_g1_tau_i);
    let p = Parameters {
        proving_key: ProvingKey { list_g1_tau_i, list_l_i, list_update_keys: update_keys },
        verifying_key: VerifyingKey { list_g1_tau_i: vk_g1, list_g2_tau_i, a },
    };
    proof {
        assert(p.proving_key.list_g1_tau_i@ == g1_table_of(g1, tau_powers(old(tau).val(), (size + 1) as nat)));
        assert(p.verifying_key.list_g2_tau_i@ == g2_table_of(g2, tau_powers(old(tau).val(), (size + 1) as nat)));
    }
    Ok(p)
}

} // verus!
