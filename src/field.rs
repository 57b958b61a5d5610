//! The scalar field of BLS12-381, held as four canonical 64-bit limbs.
use ark_bls12_381::Fr;
use ark_ff::{BigInteger256, Field, PrimeField};
use zeroize::Zeroize;
use vstd::prelude::*;
use vstd::arithmetic::div_mod::{lemma_fundamental_div_mod_converse, lemma_mul_mod_noop_left, lemma_mul_mod_noop_right, lemma_small_mod};

verus! {

/// The radix of one limb.
pub open spec fn limb_base() -> int {
    0x1_0000_0000_0000_0000
}

/// The integer that four little-endian limbs stand for.
pub open spec fn limbs_value(l: [u64; 4]) -> int {
    l[0] as int + limb_base() * (l[1] as int + limb_base() * (l[2] as int + limb_base() * (l[3] as int)))
}

/// The order of the scalar field.
pub open spec fn modulus() -> int {
    limbs_value([0xffffffff00000001u64, 0x53bda402fffe5bfeu64, 0x3339d80809a1d805u64, 0x73eda753299d7d48u64])
}

/// Field inputs are reduced into `0..modulus()`.
pub open spec fn fmod(x: int) -> int {
    x % modulus()
}

/// `x^e` in the field.
pub open spec fn fpow(x: int, e: nat) -> int
    decreases e,
{
    if e == 0 {
        fmod(1)
    } else {
        fmod(x * fpow(x, (e - 1) as nat))
    }
}

/// The multiplicative inverse of `x` in the field (meaningful when one exists).
pub open spec fn finv(x: int) -> int {
    choose|y: int| 0 <= y < modulus() && #[trigger] fmod(x * y) == 1
}

/// An element of the scalar field, in canonical (non-Montgomery) form.
#[derive(Clone, Copy, Debug, PartialEq, Eq)]
pub struct Scalar {
    pub limbs: [u64; 4],
}

impl Scalar {
    /// The field element that this value holds.
    pub open spec fn val(self) -> int {
        limbs_value(self.limbs)
    }

    /// The limbs are reduced modulo the field order.
    pub open spec fn wf(self) -> bool {
        self.val() < modulus()
    }

    /// The element with the given small value.
    pub fn from_u64(v: u64) -> (r: Scalar)
        ensures
            r.wf(),
            r.val() == v,
    {
        let r = Scalar { limbs: [v, 0, 0, 0] };
        assert(r.val() == v as int);
        r
    }

    pub fn zero() -> (r: Scalar)
        ensures
            r.wf(),
            r.val() == 0,
    {
        Scalar::from_u64(0)
    }

    pub fn one() -> (r: Scalar)
        ensures
            r.wf(),
            r.val() == 1,
    {
        Scalar::from_u64(1)
    }

    /// Builds an element from canonical limbs; `None` when they are not reduced.
    pub fn from_limbs(limbs: [u64; 4]) -> (r: Option<Scalar>)
        ensures
            r.is_some() <==> limbs_value(limbs) < modulus(),
            r.is_some() ==> r.unwrap().limbs == limbs,
    {
        let m: [u64; 4] = [0xffffffff00000001u64, 0x53bda402fffe5bfeu64, 0x3339d80809a1d805u64, 0x73eda753299d7d48u64];
        proof { lemma_limbs_order(limbs, m); }
        assert(modulus() == limbs_value(m));
        let below = limbs[3] < m[3] || (limbs[3] == m[3] && (limbs[2] < m[2] || (limbs[2] == m[2] && (
        limbs[1] < m[1] || (limbs[1] == m[1] && limbs[0] < m[0])))));
        if below {
            Some(Scalar { limbs })
        } else {
            None
        }
    }

    /// Equality of field elements.
    pub fn equals(&self, o: &Scalar) -> (r: bool)
        ensures
            r == (self.val() == o.val()),
    {
        proof { lemma_limbs_unique(self.limbs, o.limbs); }
        self.limbs[0] == o.limbs[0] && self.limbs[1] == o.limbs[1] && self.limbs[2] == o.limbs[2]
            && self.limbs[3] == o.limbs[3]
    }

    pub fn is_zero(&self) -> (r: bool)
        ensures
            r == (self.val() == 0),
    {
        self.equals(&Scalar::zero())
    }
}

/// The values of a sequence of scalars.
pub open spec fn scalar_vals(s: Seq<Scalar>) -> Seq<int> {
    s.map_values(|x: Scalar| x.val())
}

/// Every scalar of the sequence is reduced.
pub open spec fn all_wf(s: Seq<Scalar>) -> bool {
    forall|k: int| 0 <= k < s.len() ==> s[k].wf()
}

/// Limbs that give the same integer are the same limbs.
pub proof fn lemma_limbs_unique(a: [u64; 4], b: [u64; 4])
    ensures
        (limbs_value(a) == limbs_value(b)) <==> (a == b),
{
    if limbs_value(a) == limbs_value(b) {
        let bb = limb_base();
        let ra2 = a[2] as int + bb * (a[3] as int);
        let rb2 = b[2] as int + bb * (b[3] as int);
        let ra1 = a[1] as int + bb * ra2;
        let rb1 = b[1] as int + bb * rb2;
        let x = limbs_value(a);
        lemma_fundamental_div_mod_converse(x, bb, ra1, a[0] as int);
        lemma_fundamental_div_mod_converse(x, bb, rb1, b[0] as int);
        lemma_fundamental_div_mod_converse(ra1, bb, ra2, a[1] as int);
        lemma_fundamental_div_mod_converse(ra1, bb, rb2, b[1] as int);
        lemma_fundamental_div_mod_converse(ra2, bb, a[3] as int, a[2] as int);
        lemma_fundamental_div_mod_converse(ra2, bb, b[3] as int, b[2] as int);
        assert(a =~= b);
    }
}

/// Comparing limbs from the most significant one orders the integers.
proof fn lemma_limbs_order(a: [u64; 4], b: [u64; 4])
    ensures
        a[3] < b[3] ==> limbs_value(a) < limbs_value(b),
        a[3] > b[3] ==> limbs_value(a) > limbs_value(b),
        a[3] == b[3] && a[2] < b[2] ==> limbs_value(a) < limbs_value(b),
        a[3] == b[3] && a[2] > b[2] ==> limbs_value(a) > limbs_value(b),
        a[3] == b[3] && a[2] == b[2] && a[1] < b[1] ==> limbs_value(a) < limbs_value(b),
        a[3] == b[3] && a[2] == b[2] && a[1] > b[1] ==> limbs_value(a) > limbs_value(b),
        a[3] == b[3] && a[2] == b[2] && a[1] == b[1] ==> (limbs_value(a) < limbs_value(b) <==> a[0] < b[0]),
{
    let bb = limb_base();
    let (a0, a1, a2, a3) = (a[0] as int, a[1] as int, a[2] as int, a[3] as int);
    let (b0, b1, b2, b3) = (b[0] as int, b[1] as int, b[2] as int, b[3] as int);
    assert(0 <= a0 < bb && 0 <= a1 < bb && 0 <= a2 < bb && 0 <= b0 < bb && 0 <= b1 < bb && 0 <= b2 < bb);
    assert(a3 >= 0 && b3 >= 0);
    let xa = limbs_value(a);
    assert(xa == a0 + bb * (a1 + bb * (a2 + bb * a3)));
    assert(xa == a0 + bb * a1 + bb * bb * a2 + bb * bb * bb * a3) by (nonlinear_arith)
        requires xa == a0 + bb * (a1 + bb * (a2 + bb * a3));
    let xb = limbs_value(b);
    assert(xb == b0 + bb * (b1 + bb * (b2 + bb * b3)));
    assert(xb == b0 + bb * b1 + bb * bb * b2 + bb * bb * bb * b3) by (nonlinear_arith)
        requires xb == b0 + bb * (b1 + bb * (b2 + bb * b3));
    assert(bb * a1 + a0 < bb * bb && bb * b1 + b0 < bb * bb) by (nonlinear_arith)
        requires 0 <= a0 < bb, 0 <= a1 < bb, 0 <= b0 < bb, 0 <= b1 < bb;
    assert(bb * bb * a2 + bb * a1 + a0 < bb * bb * bb && bb * bb * b2 + bb * b1 + b0 < bb * bb * bb) by (nonlinear_arith)
        requires bb * a1 + a0 < bb * bb, bb * b1 + b0 < bb * bb, 0 <= a2 < bb, 0 <= b2 < bb, bb > 0;
    assert(a3 < b3 ==> bb * bb * bb * a3 + bb * bb * bb <= bb * bb * bb * b3) by (nonlinear_arith)
        requires bb > 0;
    assert(a3 > b3 ==> bb * bb * bb * b3 + bb * bb * bb <= bb * bb * bb * a3) by (nonlinear_arith)
        requires bb > 0;
    assert(a2 < b2 ==> bb * bb * a2 + bb * bb <= bb * bb * b2) by (nonlinear_arith)
        requires bb > 0;
    assert(a2 > b2 ==> bb * bb * b2 + bb * bb <= bb * bb * a2) by (nonlinear_arith)
        requires bb > 0;
    assert(a1 < b1 ==> bb * a1 + bb <= bb * b1) by (nonlinear_arith)
        requires bb > 0;
    assert(a1 > b1 ==> bb * b1 + bb <= bb * a1) by (nonlinear_arith)
        requires bb > 0;
    assert(bb * a2 >= 0 && bb * b2 >= 0 && bb * a1 >= 0) by (nonlinear_arith)
        requires bb > 0, a2 >= 0, b2 >= 0, a1 >= 0;
}

/// Relies on ark_ff's `Sub` for `Fr`: subtraction modulo the field order.
#[verifier::external_body]
pub(crate) fn fr_sub(a: &Scalar, b: &Scalar) -> (r: Scalar)
    requires
        a.wf(),
        b.wf(),
    ensures
        r.wf(),
        r.val() == fmod(a.val() - b.val()),
{
    let x = Fr::from_repr(BigInteger256(a.limbs)).unwrap();
    let y = Fr::from_repr(BigInteger256(b.limbs)).unwrap();
    Scalar { limbs: (x - y).into_repr().0 }
}

/// Relies on ark_ff's `Neg` for `Fr`: the additive inverse.
#[verifier::external_body]
pub(crate) fn fr_neg(a: &Scalar) -> (r: Scalar)
    requires
        a.wf(),
    ensures
        r.wf(),
        r.val() == fmod(-a.val()),
{
    let x = Fr::from_repr(BigInteger256(a.limbs)).unwrap();
    Scalar { limbs: (-x).into_repr().0 }
}

/// Relies on ark_ff's `Mul` for `Fr`: multiplication modulo the field order.
#[verifier::external_body]
pub(crate) fn fr_mul(a: &Scalar, b: &Scalar) -> (r: Scalar)
    requires
        a.wf(),
        b.wf(),
    ensures
        r.wf(),
        r.val() == fmod(a.val() * b.val()),
{
    let x = Fr::from_repr(BigInteger256(a.limbs)).unwrap();
    let y = Fr::from_repr(BigInteger256(b.limbs)).unwrap();
    Scalar { limbs: (x * y).into_repr().0 }
}

/// Relies on ark_ff's `Field::inverse`: `None` exactly for zero.
#[verifier::external_body]
pub(crate) fn fr_inverse(a: &Scalar) -> (r: Option<Scalar>)
    requires
        a.wf(),
    ensures
        r.is_none() <==> a.val() == 0,
        r.is_some() ==> r.unwrap().wf() && fmod(a.val() * r.unwrap().val()) == 1,
{
    let x = Fr::from_repr(BigInteger256(a.limbs)).unwrap();
    x.inverse().map(|y| Scalar { limbs: y.into_repr().0 })
}

/// Relies on ark_ff's `Field::pow` with a one-limb exponent.
#[verifier::external_body]
pub(crate) fn fr_pow(a: &Scalar, e: u64) -> (r: Scalar)
    requires
        a.wf(),
    ensures
        r.wf(),
        r.val() == fpow(a.val(), e as nat),
{
    let x = Fr::from_repr(BigInteger256(a.limbs)).unwrap();
    Scalar { limbs: x.pow([e]).into_repr().0 }
}

/// Relies on zeroize's `Zeroize` for `[u64; 4]`: every limb is overwritten
/// with zero, by writes that the compiler keeps.
#[verifier::external_body]
pub(crate) fn wipe(s: &mut Scalar)
    ensures
        final(s).wf(),
        final(s).val() == 0,
{
    s.limbs.zeroize();
}

/// Relies on zeroize's `Zeroize` for `[u64; 4]`, applied to each element in
/// place: every scalar of `v` is overwritten with zero.
#[verifier::external_body]
pub(crate) fn wipe_all(v: &mut Vec<Scalar>)
    ensures
        final(v)@.len() == old(v)@.len(),
        forall|k: int| 0 <= k < final(v)@.len() ==> #[trigger] final(v)@[k].val() == 0,
{
    v.iter_mut().for_each(|s| s.limbs.zeroize());
}

/// Division `a / b`; `None` when `b` is zero.
pub fn fr_div(a: &Scalar, b: &Scalar) -> (r: Option<Scalar>)
    requires
        a.wf(),
        b.wf(),
    ensures
        r.is_none() <==> b.val() == 0,
        r.is_some() ==> r.unwrap().wf() && r.unwrap().val() == fmod(a.val() * finv(b.val())),
{
    match fr_inverse(b) {
        None => None,
        Some(bi) => {
            proof { lemma_finv_unique(b.val(), bi.val()); }
            Some(fr_mul(a, &bi))
        },
    }
}

/// An inverse modulo the field order is unique among reduced values.
pub proof fn lemma_finv_unique(x: int, d: int)
    requires
        0 <= d < modulus(),
        fmod(x * d) == 1,
    ensures
        finv(x) == d,
{
    let m = modulus();
    let y = finv(x);
    assert(0 <= y < m && fmod(x * y) == 1);
    // d == d * (x * y) == (d * x) * y == y, all modulo m
    lemma_mul_mod_noop_right(d, x * y, m);
    assert(d * 1 == d);
    lemma_small_mod(d as nat, m as nat);
    lemma_small_mod(y as nat, m as nat);
    assert(d * (x * y) == (x * d) * y) by (nonlinear_arith);
    lemma_mul_mod_noop_left(x * d, y, m);
    assert(1 * y == y);
}

} // verus!