//! The pairing groups of BLS12-381, carried through the scheme as opaque values.
use crate::field::{all_wf, scalar_vals, Scalar};
use ark_bls12_381::{Bls12_381, Fr, G1Affine, G1Projective, G2Affine, G2Projective};
use ark_ec::msm::{FixedBaseMSM, VariableBaseMSM};
use ark_ec::{AffineCurve, PairingEngine, ProjectiveCurve};
use ark_ff::{BigInteger256, PrimeField};
use vstd::prelude::*;

verus! {

/// An element of G1 in affine form. The arkworks point type is generic over a
/// curve-parameter trait that cannot be named as a bound here, so the point is
/// held opaquely and reached only through the functions below.
#[verifier::external_body]
pub struct G1 {
    p: G1Affine,
}

/// An element of G2 in affine form, held opaquely as G1's points are.
#[verifier::external_body]
pub struct G2 {
    p: G2Affine,
}

impl Clone for G1 {
    /// Relies on the `Copy` of ark_ec's affine points.
    #[verifier::external_body]
    fn clone(&self) -> (r: G1)
        ensures
            r == *self,
    {
        G1 { p: self.p }
    }
}

impl Clone for G2 {
    /// Relies on the `Copy` of ark_ec's affine points.
    #[verifier::external_body]
    fn clone(&self) -> (r: G2)
        ensures
            r == *self,
    {
        G2 { p: self.p }
    }
}

impl G1 {
    /// Relies on ark_ec's equality of affine points.
    #[verifier::external_body]
    pub(crate) fn equals(&self, o: &G1) -> (r: bool)
        ensures
            r == (*self == *o),
    {
        self.p == o.p
    }
}

/// `sum_k scalars[k] * bases[k]` in G1, over the common prefix.
pub uninterp spec fn g1_msm_of(bases: Seq<G1>, scalars: Seq<int>) -> G1;

/// `sum_k scalars[k] * bases[k]` in G2, over the common prefix.
pub uninterp spec fn g2_msm_of(bases: Seq<G2>, scalars: Seq<int>) -> G2;

/// `[scalars[k] * g : k]` in G1.
pub uninterp spec fn g1_table_of(g: G1, scalars: Seq<int>) -> Seq<G1>;

/// `[scalars[k] * g : k]` in G2.
pub uninterp spec fn g2_table_of(g: G2, scalars: Seq<int>) -> Seq<G2>;

/// `s * p` in G1.
pub uninterp spec fn g1_scale_of(p: G1, s: int) -> G1;

/// `s * p` in G2.
pub uninterp spec fn g2_scale_of(p: G2, s: int) -> G2;

/// `a + b` in G1.
pub uninterp spec fn g1_add_of(a: G1, b: G1) -> G1;

/// `a - b` in G1.
pub uninterp spec fn g1_sub_of(a: G1, b: G1) -> G1;

/// `a - b` in G2.
pub uninterp spec fn g2_sub_of(a: G2, b: G2) -> G2;

/// Whether `e(a, b) == e(c, d)`.
pub uninterp spec fn pairings_equal(a: G1, b: G2, c: G1, d: G2) -> bool;

/// Relies on ark_ec's `prime_subgroup_generator` for G1.
#[verifier::external_body]
pub(crate) fn g1_generator() -> G1 {
    G1 { p: G1Affine::prime_subgroup_generator() }
}

/// Relies on ark_ec's `prime_subgroup_generator` for G2.
#[verifier::external_body]
pub(crate) fn g2_generator() -> G2 {
    G2 { p: G2Affine::prime_subgroup_generator() }
}

/// Relies on ark_ec's `VariableBaseMSM::multi_scalar_mul` in G1.
#[verifier::external_body]
pub(crate) fn g1_msm(bases: &Vec<G1>, scalars: &Vec<Scalar>) -> (r: G1)
    ensures
        r == g1_msm_of(bases@, scalar_vals(scalars@)),
{
    let b: Vec<G1Affine> = bases.iter().map(|x| x.p).collect();
    let s: Vec<BigInteger256> = scalars.iter().map(|x| BigInteger256(x.limbs)).collect();
    G1 { p: VariableBaseMSM::multi_scalar_mul(&b, &s).into_affine() }
}

/// Relies on ark_ec's `VariableBaseMSM::multi_scalar_mul` in G2.
#[verifier::external_body]
pub(crate) fn g2_msm(bases: &Vec<G2>, scalars: &Vec<Scalar>) -> (r: G2)
    ensures
        r == g2_msm_of(bases@, scalar_vals(scalars@)),
{
    let b: Vec<G2Affine> = bases.iter().map(|x| x.p).collect();
    let s: Vec<BigInteger256> = scalars.iter().map(|x| BigInteger256(x.limbs)).collect();
    G2 { p: VariableBaseMSM::multi_scalar_mul(&b, &s).into_affine() }
}

/// Relies on ark_ec's `FixedBaseMSM` (window table, then one product per
/// scalar) and `batch_normalization_into_affine` in G1.
#[verifier::external_body]
pub(crate) fn g1_table(g: &G1, scalars: &Vec<Scalar>) -> (r: Vec<G1>)
    requires
        all_wf(scalars@),
    ensures
        r@.len() == scalars@.len(),
        r@ == g1_table_of(*g, scalar_vals(scalars@)),
{
    let s: Vec<Fr> = scalars.iter().map(|x| Fr::from_repr(BigInteger256(x.limbs)).unwrap()).collect();
    let w = FixedBaseMSM::get_mul_window_size(s.len());
    let t = FixedBaseMSM::get_window_table(Fr::size_in_bits(), w, g.p.into_projective());
    let v: Vec<G1Projective> = FixedBaseMSM::multi_scalar_mul(Fr::size_in_bits(), w, &t, &s);
    G1Projective::batch_normalization_into_affine(&v).into_iter().map(|p| G1 { p }).collect()
}

/// Relies on ark_ec's `FixedBaseMSM` (window table, then one product per
/// scalar) and `batch_normalization_into_affine` in G2.
#[verifier::external_body]
pub(crate) fn g2_table(g: &G2, scalars: &Vec<Scalar>) -> (r: Vec<G2>)
    requires
        all_wf(scalars@),
    ensures
        r@.len() == scalars@.len(),
        r@ == g2_table_of(*g, scalar_vals(scalars@)),
{
    let s: Vec<Fr> = scalars.iter().map(|x| Fr::from_repr(BigInteger256(x.limbs)).unwrap()).collect();
    let w = FixedBaseMSM::get_mul_window_size(s.len());
    let t = FixedBaseMSM::get_window_table(Fr::size_in_bits(), w, g.p.into_projective());
    let v: Vec<G2Projective> = FixedBaseMSM::multi_scalar_mul(Fr::size_in_bits(), w, &t, &s);
    G2Projective::batch_normalization_into_affine(&v).into_iter().map(|p| G2 { p }).collect()
}

/// Relies on ark_ec's `AffineCurve::mul` in G1.
#[verifier::external_body]
pub(crate) fn g1_scale(p: &G1, s: &Scalar) -> (r: G1)
    ensures
        r == g1_scale_of(*p, s.val()),
{
    G1 { p: p.p.mul(BigInteger256(s.limbs)).into_affine() }
}

/// Relies on ark_ec's `AffineCurve::mul` in G2.
#[verifier::external_body]
pub(crate) fn g2_scale(p: &G2, s: &Scalar) -> (r: G2)
    ensures
        r == g2_scale_of(*p, s.val()),
{
    G2 { p: p.p.mul(BigInteger256(s.limbs)).into_affine() }
}

/// Relies on ark_ec's group addition in G1.
#[verifier::external_body]
pub(crate) fn g1_add(a: &G1, b: &G1) -> (r: G1)
    ensures
        r == g1_add_of(*a, *b),
{
    G1 { p: (a.p.into_projective() + b.p.into_projective()).into_affine() }
}

/// Relies on ark_ec's group subtraction in G1.
#[verifier::external_body]
pub(crate) fn g1_sub(a: &G1, b: &G1) -> (r: G1)
    ensures
        r == g1_sub_of(*a, *b),
{
    G1 { p: (a.p.into_projective() - b.p.into_projective()).into_affine() }
}

/// Relies on ark_ec's group subtraction in G2.
#[verifier::external_body]
pub(crate) fn g2_sub(a: &G2, b: &G2) -> (r: G2)
    ensures
        r == g2_sub_of(*a, *b),
{
    G2 { p: (a.p.into_projective() - b.p.into_projective()).into_affine() }
}

/// Relies on ark_ec's `PairingEngine::pairing` for BLS12-381, compared in GT.
#[verifier::external_body]
pub(crate) fn pairing_check(a: &G1, b: &G2, c: &G1, d: &G2) -> (r: bool)
    ensures
        r == pairings_equal(*a, *b, *c, *d),
{
    Bls12_381::pairing(a.p, b.p) == Bls12_381::pairing(c.p, d.p)
}

} // verus!
