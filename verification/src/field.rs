//! Arithmetic in the scalar field of the BLS12-381 curve.
//!
//! A field element is carried as an `ark_bls12_381::Fr` value together with a
//! ghost integer: its canonical representative in `[0, fr_order())`. The
//! executable arithmetic is done by the `ark_ff` implementation behind
//! trusted wrappers; every contract of this crate speaks of the
//! representatives, on which the field operations are plain modular
//! arithmetic.

use vstd::prelude::*;
use vstd::arithmetic::div_mod::{
    lemma_add_mod_noop, lemma_mod_twice, lemma_mul_mod_noop_left, lemma_mul_mod_noop_right,
    lemma_small_mod, lemma_sub_mod_noop,
};

verus! {

/// The prime order of the BLS12-381 scalar field,
/// `0x73eda753299d7d483339d80809a1d80553bda402fffe5bfeffffffff00000001`,
/// written as `high * 2^128 + low`.
pub open spec fn fr_order() -> int {
    0x73eda753299d7d483339d80809a1d805int * 0x10000000000000000int * 0x10000000000000000int
        + 0x53bda402fffe5bfeffffffff00000001int
}

/// Holds the ark field value. `ark_ff::Fp`'s generic parameters carry trait
/// bounds that Verus cannot resolve, so the value is kept opaque in a struct
/// of this crate instead of being declared directly.
#[verifier::external_body]
pub struct FrValue {
    inner: ark_bls12_381::Fr,
}

/// Relies on `Fr` being `Copy`: hands back the same field value.
#[verifier::external_body]
fn fr_dup(x: &FrValue) -> FrValue {
    FrValue { inner: x.inner }
}

/// A field element. `inner` is the ark value; `repr` is its canonical
/// representative, the mathematical value every contract speaks of.
pub struct Fe {
    inner: FrValue,
    repr: Ghost<int>,
}

impl View for Fe {
    type V = int;

    closed spec fn view(&self) -> int {
        self.repr@
    }
}

impl Clone for Fe {
    fn clone(&self) -> (r: Fe)
        ensures
            r@ == self@,
    {
        Fe { inner: fr_dup(&self.inner), repr: self.repr }
    }
}

/// Sum of two representatives, reduced.
pub open spec fn fadd(a: int, b: int) -> int {
    (a + b) % fr_order()
}

/// Difference of two representatives, reduced.
pub open spec fn fsub(a: int, b: int) -> int {
    (a - b) % fr_order()
}

/// Product of two representatives, reduced.
pub open spec fn fmul(a: int, b: int) -> int {
    (a * b) % fr_order()
}

/// Power of a representative, reduced.
pub open spec fn fpow(a: int, e: nat) -> int
    decreases e,
{
    if e == 0 {
        1
    } else {
        fmul(a, fpow(a, (e - 1) as nat))
    }
}

/// The bit a coordinate selects when a point is used as a table index: any
/// non-zero element counts as one.
pub open spec fn bool_val(a: int) -> int {
    if a == 0 {
        0
    } else {
        1
    }
}

/// The representatives of a sequence of field elements.
pub open spec fn vals(s: Seq<Fe>) -> Seq<int> {
    s.map_values(|f: Fe| f@)
}

/// Every entry lies in `[0, fr_order())`.
pub open spec fn reduced(s: Seq<int>) -> bool {
    forall|i: int| 0 <= i < s.len() ==> 0 <= #[trigger] s[i] < fr_order()
}

impl Fe {
    /// The representative lies in `[0, fr_order())`.
    pub open spec fn inv(&self) -> bool {
        0 <= self@ < fr_order()
    }

    /// Relies on `ark_ff::Zero::zero` for `Fr`: the additive identity,
    /// represented by zero.
    #[verifier::external_body]
    pub fn zero() -> (r: Fe)
        ensures
            r@ == 0,
            r.inv(),
    {
        Fe { inner: FrValue { inner: <ark_bls12_381::Fr as ark_ff::Zero>::zero() }, repr: Ghost(0int) }
    }

    /// Relies on `ark_ff::One::one` for `Fr`: the multiplicative identity,
    /// represented by one.
    #[verifier::external_body]
    pub fn one() -> (r: Fe)
        ensures
            r@ == 1,
            r.inv(),
    {
        Fe { inner: FrValue { inner: <ark_bls12_381::Fr as ark_ff::One>::one() }, repr: Ghost(1int) }
    }

    /// Relies on `Fr::from(u64)`: the image of an integer is its residue.
    #[verifier::external_body]
    pub fn from_u64(x: u64) -> (r: Fe)
        ensures
            r@ == x as int % fr_order(),
            r.inv(),
    {
        Fe { inner: FrValue { inner: ark_bls12_381::Fr::from(x) }, repr: Ghost(0int) }
    }

    /// Relies on field addition of `Fr`: addition of representatives mod the
    /// field order.
    #[verifier::external_body]
    pub fn plus(&self, other: &Fe) -> (r: Fe)
        ensures
            r@ == fadd(self@, other@),
            r.inv(),
    {
        Fe { inner: FrValue { inner: self.inner.inner + other.inner.inner }, repr: Ghost(0int) }
    }

    /// Relies on field subtraction of `Fr`: subtraction of representatives
    /// mod the field order.
    #[verifier::external_body]
    pub fn minus(&self, other: &Fe) -> (r: Fe)
        ensures
            r@ == fsub(self@, other@),
            r.inv(),
    {
        Fe { inner: FrValue { inner: self.inner.inner - other.inner.inner }, repr: Ghost(0int) }
    }

    /// Relies on field multiplication of `Fr`: multiplication of
    /// representatives mod the field order.
    #[verifier::external_body]
    pub fn times(&self, other: &Fe) -> (r: Fe)
        ensures
            r@ == fmul(self@, other@),
            r.inv(),
    {
        Fe { inner: FrValue { inner: self.inner.inner * other.inner.inner }, repr: Ghost(0int) }
    }

    /// Relies on `ark_ff::Field::pow`: exponentiation by squaring, equal to
    /// the repeated product mod the field order.
    #[verifier::external_body]
    pub fn pow_u64(&self, e: u64) -> (r: Fe)
        ensures
            r@ == fpow(self@, e as nat),
            r.inv(),
    {
        Fe { inner: FrValue { inner: ark_ff::Field::pow(&self.inner.inner, [e]) }, repr: Ghost(0int) }
    }

    /// Relies on `PartialEq` of `Fr`: two elements are equal exactly when
    /// their canonical representatives are.
    #[verifier::external_body]
    pub fn equals(&self, other: &Fe) -> (r: bool)
        ensures
            r == (self@ == other@),
    {
        self.inner.inner == other.inner.inner
    }

    /// Relies on `ark_ff::Zero::is_zero` for `Fr`: true exactly on the
    /// element represented by zero.
    #[verifier::external_body]
    pub fn is_zero(&self) -> (r: bool)
        ensures
            r == (self@ == 0),
    {
        <ark_bls12_381::Fr as ark_ff::Zero>::is_zero(&self.inner.inner)
    }
}

/// Relies on `rand::thread_rng` and `ark_ff::UniformRand` for `Fr`: draws a
/// uniformly random field element; nothing is known of the value beyond its
/// range.
#[verifier::external_body]
pub(crate) fn random_fe() -> (r: Fe)
    ensures
        r.inv(),
{
    let mut rng = rand::thread_rng();
    let v: ark_bls12_381::Fr = <ark_bls12_381::Fr as ark_ff::UniformRand>::rand(&mut rng);
    Fe { inner: FrValue { inner: v }, repr: Ghost(0int) }
}

// ---------------------------------------------------------------------------
// Facts about the reduced operations, derived from the modulus being positive.
// ---------------------------------------------------------------------------

pub proof fn lemma_mod_add_l(a: int, b: int)
    ensures
        ((a % fr_order()) + b) % fr_order() == (a + b) % fr_order(),
{
    lemma_mod_twice(a, fr_order());
    lemma_add_mod_noop(a % fr_order(), b, fr_order());
    lemma_add_mod_noop(a, b, fr_order());
}

pub proof fn lemma_mod_add_r(a: int, b: int)
    ensures
        (a + (b % fr_order())) % fr_order() == (a + b) % fr_order(),
{
    lemma_mod_add_l(b, a);
}

pub proof fn lemma_mod_sub_l(a: int, b: int)
    ensures
        ((a % fr_order()) - b) % fr_order() == (a - b) % fr_order(),
{
    lemma_mod_twice(a, fr_order());
    lemma_sub_mod_noop(a % fr_order(), b, fr_order());
    lemma_sub_mod_noop(a, b, fr_order());
}

pub proof fn lemma_mod_sub_r(a: int, b: int)
    ensures
        (a - (b % fr_order())) % fr_order() == (a - b) % fr_order(),
{
    lemma_mod_twice(b, fr_order());
    lemma_sub_mod_noop(a, b % fr_order(), fr_order());
    lemma_sub_mod_noop(a, b, fr_order());
}

pub proof fn lemma_mod_mul_l(a: int, b: int)
    ensures
        ((a % fr_order()) * b) % fr_order() == (a * b) % fr_order(),
{
    lemma_mul_mod_noop_left(a, b, fr_order());
}

pub proof fn lemma_mod_mul_r(a: int, b: int)
    ensures
        (a * (b % fr_order())) % fr_order() == (a * b) % fr_order(),
{
    lemma_mul_mod_noop_right(a, b, fr_order());
}

/// A reduced value is its own residue.
pub proof fn lemma_mod_small(a: int)
    requires
        0 <= a < fr_order(),
    ensures
        a % fr_order() == a,
{
    lemma_small_mod(a as nat, fr_order() as nat);
}

pub proof fn lemma_vals_push(s: Seq<Fe>, x: Fe)
    ensures
        vals(s.push(x)) == vals(s).push(x@),
{
    assert(vals(s.push(x)) =~= vals(s).push(x@));
}

pub proof fn lemma_fadd_zero(a: int)
    requires
        0 <= a < fr_order(),
    ensures
        fadd(a, 0) == a,
        fadd(0, a) == a,
{
    lemma_mod_small(a);
}

pub proof fn lemma_fadd_assoc(a: int, b: int, c: int)
    ensures
        fadd(fadd(a, b), c) == fadd(a, fadd(b, c)),
{
    lemma_mod_add_l(a + b, c);
    lemma_mod_add_r(a, b + c);
}

pub proof fn lemma_fadd_swap(a: int, b: int, c: int)
    ensures
        fadd(fadd(a, b), c) == fadd(fadd(a, c), b),
{
    lemma_mod_add_l(a + b, c);
    lemma_mod_add_l(a + c, b);
}

pub proof fn lemma_fmul_zero(b: int)
    ensures
        fmul(0, b) == 0,
        fmul(b, 0) == 0,
{
    lemma_mod_small(0);
}

pub proof fn lemma_fmul_one(a: int)
    requires
        0 <= a < fr_order(),
    ensures
        fmul(1, a) == a,
        fmul(a, 1) == a,
{
    lemma_mod_small(a);
}

pub proof fn lemma_fmul_comm(a: int, b: int)
    ensures
        fmul(a, b) == fmul(b, a),
{
    assert(a * b == b * a) by (nonlinear_arith);
}

pub proof fn lemma_fmul_assoc(a: int, b: int, c: int)
    ensures
        fmul(fmul(a, b), c) == fmul(a, fmul(b, c)),
{
    lemma_mod_mul_l(a * b, c);
    lemma_mod_mul_r(a, b * c);
    assert((a * b) * c == a * (b * c)) by (nonlinear_arith);
}

pub proof fn lemma_fmul_swap(a: int, b: int, c: int)
    ensures
        fmul(fmul(a, b), c) == fmul(fmul(a, c), b),
{
    lemma_mod_mul_l(a * b, c);
    lemma_mod_mul_l(a * c, b);
    assert((a * b) * c == (a * c) * b) by (nonlinear_arith);
}

pub proof fn lemma_fmul_distrib(a: int, b: int, c: int)
    ensures
        fmul(a, fadd(b, c)) == fadd(fmul(a, b), fmul(a, c)),
{
    lemma_mod_mul_r(a, b + c);
    assert(a * (b + c) == a * b + a * c) by (nonlinear_arith);
    lemma_add_mod_noop(a * b, a * c, fr_order());
}

} // verus!
