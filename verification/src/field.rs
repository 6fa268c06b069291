//! Elements of the base field of the Pallas curve, and the arithmetic on them.
//!
//! An element is kept as four 64-bit limbs of an integer, least significant
//! first, and stands for that integer modulo the order of the field. The
//! arithmetic itself is done by the `pasta` field; what each operation returns
//! is stated over the integers.

use ff::PrimeField;
use halo2_proofs::pasta::Fp;
use vstd::arithmetic::div_mod::{lemma_add_mod_noop, lemma_mod_twice, lemma_mul_mod_noop};
use vstd::prelude::*;

verus! {

/// The order of the field,
/// `0x40000000000000000000000000000000224698fc094cf91b992d30ed00000001`.
pub open spec fn modulus() -> nat {
    0x4000_0000_0000_0000_0000_0000_0000_0000_2246_98fc_094c_f91b_992d_30ed_0000_0001nat
}

/// The integer that four limbs spell, least significant limb first.
pub open spec fn limbs_value(l: [u64; 4]) -> nat {
    (l[0] as nat) + (l[1] as nat) * 0x1_0000_0000_0000_0000 + (l[2] as nat)
        * 0x1_0000_0000_0000_0000_0000_0000_0000_0000 + (l[3] as nat)
        * 0x1_0000_0000_0000_0000_0000_0000_0000_0000_0000_0000_0000_0000nat
}

/// The integer that the eight bytes from position `k` spell, least significant
/// byte first.
pub open spec fn octet_value(b: [u8; 32], k: int) -> nat {
    (b[k] as nat) + 0x100 * ((b[k + 1] as nat) + 0x100 * ((b[k + 2] as nat) + 0x100 * ((b[k
        + 3] as nat) + 0x100 * ((b[k + 4] as nat) + 0x100 * ((b[k + 5] as nat) + 0x100 * ((b[k
        + 6] as nat) + 0x100 * (b[k + 7] as nat)))))))
}

/// The integer that 32 bytes spell, least significant byte first.
pub open spec fn repr_value(b: [u8; 32]) -> nat {
    octet_value(b, 0) + octet_value(b, 8) * 0x1_0000_0000_0000_0000 + octet_value(b, 16)
        * 0x1_0000_0000_0000_0000_0000_0000_0000_0000 + octet_value(b, 24)
        * 0x1_0000_0000_0000_0000_0000_0000_0000_0000_0000_0000_0000_0000nat
}

/// Sum in the field.
#[verifier::opaque]
pub open spec fn fadd(a: nat, b: nat) -> nat {
    (a + b) % modulus()
}

/// Product in the field.
#[verifier::opaque]
pub open spec fn fmul(a: nat, b: nat) -> nat {
    (a * b) % modulus()
}

/// Additive inverse in the field.
#[verifier::opaque]
pub open spec fn fneg(a: nat) -> nat {
    ((modulus() - a % modulus()) % (modulus() as int)) as nat
}

/// Difference in the field.
pub open spec fn fsub(a: nat, b: nat) -> nat {
    fadd(a, fneg(b))
}

/// Third power in the field.
#[verifier::opaque]
pub open spec fn fcube(a: nat) -> nat {
    (a * a * a) % modulus()
}

/// Fifth power in the field.
#[verifier::opaque]
pub open spec fn fpow5(a: nat) -> nat {
    (a * a * a * a * a) % modulus()
}

/// Adds two elements given by their limbs with `Fp`'s `+`, after `Fp::from_raw`
/// has taken each into the field, and hands back `to_repr` of the sum: the
/// canonical bytes of the sum of the two integers modulo the order.
#[verifier::external_body]
fn fp_add(a: [u64; 4], b: [u64; 4]) -> (r: [u8; 32])
    ensures
        repr_value(r) == fadd(limbs_value(a), limbs_value(b)),
{
    (Fp::from_raw(a) + Fp::from_raw(b)).to_repr()
}

/// Multiplies two elements given by their limbs with `Fp`'s `*`, after
/// `Fp::from_raw`, and hands back `to_repr` of the product: the canonical bytes
/// of the product of the two integers modulo the order.
#[verifier::external_body]
fn fp_mul(a: [u64; 4], b: [u64; 4]) -> (r: [u8; 32])
    ensures
        repr_value(r) == fmul(limbs_value(a), limbs_value(b)),
{
    (Fp::from_raw(a) * Fp::from_raw(b)).to_repr()
}

/// Negates an element given by its limbs with `Fp`'s unary `-`, after
/// `Fp::from_raw`, and hands back `to_repr` of the result: the canonical bytes
/// of the additive inverse modulo the order.
#[verifier::external_body]
fn fp_neg(a: [u64; 4]) -> (r: [u8; 32])
    ensures
        repr_value(r) == fneg(limbs_value(a)),
{
    (-Fp::from_raw(a)).to_repr()
}

/// Compares two elements given by their limbs with `Fp`'s `==`, after
/// `Fp::from_raw`: true exactly when the two integers agree modulo the order.
#[verifier::external_body]
fn fp_eq(a: [u64; 4], b: [u64; 4]) -> (r: bool)
    ensures
        r == (limbs_value(a) % modulus() == limbs_value(b) % modulus()),
{
    Fp::from_raw(a) == Fp::from_raw(b)
}

/// `PrimeField::to_repr` of `Fp::from_raw`: the canonical bytes of the integer
/// modulo the order.
#[verifier::external_body]
fn fp_repr(a: [u64; 4]) -> (r: [u8; 32])
    ensures
        repr_value(r) == limbs_value(a) % modulus(),
{
    Fp::from_raw(a).to_repr()
}

/// `PrimeField::to_repr` of `PrimeField::from_u128`: the bytes of the integer
/// itself, which is below the order.
#[verifier::external_body]
fn fp_from_u128(v: u128) -> (r: [u8; 32])
    ensures
        repr_value(r) == v,
{
    Fp::from_u128(v).to_repr()
}

/// The integer that the eight bytes from position `k` spell.
fn octet(b: &[u8; 32], k: usize) -> (r: u64)
    requires
        k + 8 <= 32,
    ensures
        r == octet_value(*b, k as int),
{
    let b0: u64 = b[k] as u64;
    let b1: u64 = b[k + 1] as u64;
    let b2: u64 = b[k + 2] as u64;
    let b3: u64 = b[k + 3] as u64;
    let b4: u64 = b[k + 4] as u64;
    let b5: u64 = b[k + 5] as u64;
    let b6: u64 = b[k + 6] as u64;
    let b7: u64 = b[k + 7] as u64;
    b0 + 0x100 * (b1 + 0x100 * (b2 + 0x100 * (b3 + 0x100 * (b4 + 0x100 * (b5 + 0x100 * (b6 + 0x100
        * b7))))))
}

/// An element of the field.
#[derive(Clone, Copy, Debug)]
pub struct Fe {
    limbs: [u64; 4],
}

impl Fe {
    /// The element as an integer below the order.
    pub closed spec fn view(&self) -> nat {
        limbs_value(self.limbs) % modulus()
    }

    /// Every element's integer is below the order.
    pub broadcast proof fn canonical(self)
        ensures
            #[trigger] self@ < modulus(),
    {
    }

    /// The element congruent to the integer that the limbs spell.
    pub fn from_raw(limbs: [u64; 4]) -> (r: Fe)
        ensures
            r@ == limbs_value(limbs) % modulus(),
    {
        Fe { limbs }
    }

    /// The element congruent to the integer that the bytes spell.
    pub fn from_bytes(bytes: &[u8; 32]) -> (r: Fe)
        ensures
            r@ == repr_value(*bytes) % modulus(),
    {
        Fe { limbs: [octet(bytes, 0), octet(bytes, 8), octet(bytes, 16), octet(bytes, 24)] }
    }

    /// The additive identity.
    pub fn zero() -> (r: Fe)
        ensures
            r@ == 0,
    {
        Fe { limbs: [0, 0, 0, 0] }
    }

    /// The multiplicative identity.
    pub fn one() -> (r: Fe)
        ensures
            r@ == 1,
    {
        Fe { limbs: [1, 0, 0, 0] }
    }

    /// The element of a small integer.
    pub fn from_u64(v: u64) -> (r: Fe)
        ensures
            r@ == v,
    {
        Fe { limbs: [v, 0, 0, 0] }
    }

    /// The element of an integer of 128 bits, as the field makes it.
    pub fn from_u128(v: u128) -> (r: Fe)
        ensures
            r@ == v,
    {
        let z = fp_from_u128(v);
        Fe::from_bytes(&z)
    }

    /// The canonical bytes of the element, least significant first.
    pub fn to_repr(&self) -> (r: [u8; 32])
        ensures
            repr_value(r) == self@,
    {
        fp_repr(self.limbs)
    }

    /// The sum of two elements.
    pub fn add(&self, rhs: &Fe) -> (r: Fe)
        ensures
            r@ == fadd(self@, rhs@),
    {
        let z = fp_add(self.limbs, rhs.limbs);
        proof {
            reveal(fadd);
            let p = modulus() as int;
            lemma_add_mod_noop(limbs_value(self.limbs) as int, limbs_value(rhs.limbs) as int, p);
            lemma_mod_twice((limbs_value(self.limbs) + limbs_value(rhs.limbs)) as int, p);
        }
        Fe::from_bytes(&z)
    }

    /// The product of two elements.
    pub fn mul(&self, rhs: &Fe) -> (r: Fe)
        ensures
            r@ == fmul(self@, rhs@),
    {
        let z = fp_mul(self.limbs, rhs.limbs);
        proof {
            reveal(fmul);
            let p = modulus() as int;
            lemma_mul_mod_noop(limbs_value(self.limbs) as int, limbs_value(rhs.limbs) as int, p);
            lemma_mod_twice((limbs_value(self.limbs) * limbs_value(rhs.limbs)) as int, p);
        }
        Fe::from_bytes(&z)
    }

    /// The additive inverse of an element.
    pub fn neg(&self) -> (r: Fe)
        ensures
            r@ == fneg(self@),
    {
        let z = fp_neg(self.limbs);
        proof {
            reveal(fneg);
            let p = modulus() as int;
            lemma_mod_twice(limbs_value(self.limbs) as int, p);
            lemma_mod_twice(p - (limbs_value(self.limbs) as int) % p, p);
        }
        Fe::from_bytes(&z)
    }

    /// Whether two elements are the same element of the field.
    pub fn eq(&self, rhs: &Fe) -> (r: bool)
        ensures
            r == (self@ == rhs@),
    {
        fp_eq(self.limbs, rhs.limbs)
    }

    /// Whether the element is zero.
    pub fn is_zero(&self) -> (r: bool)
        ensures
            r == (self@ == 0),
    {
        fp_eq(self.limbs, [0, 0, 0, 0])
    }
}

/// The views of a vector of elements.
pub open spec fn values(v: Seq<Fe>) -> Seq<nat> {
    v.map_values(|x: Fe| x@)
}

/// What the operations return is below the order.
pub proof fn lemma_canonical(a: nat, b: nat)
    ensures
        fadd(a, b) < modulus(),
        fmul(a, b) < modulus(),
        fneg(a) < modulus(),
        fsub(a, b) < modulus(),
        fpow5(a) < modulus(),
        fcube(a) < modulus(),
{
    reveal(fadd);
    reveal(fmul);
    reveal(fneg);
    reveal(fpow5);
    reveal(fcube);
}

/// Every value of the vector is below the order.
pub open spec fn canonical(v: Seq<nat>) -> bool {
    forall|j: int| 0 <= j < v.len() ==> #[trigger] v[j] < modulus()
}

/// Zero is neutral for the sum of canonical values.
pub proof fn lemma_fadd_zero(a: nat)
    requires
        a < modulus(),
    ensures
        fadd(a, 0) == a,
        fadd(0, a) == a,
{
    reveal(fadd);
}

/// Multiplying by zero gives zero, by one a canonical value itself.
pub proof fn lemma_fmul_unit(a: nat)
    requires
        a < modulus(),
    ensures
        fmul(0, a) == 0,
        fmul(a, 0) == 0,
        fmul(1, a) == a,
        fmul(a, 1) == a,
{
    reveal(fmul);
    assert(0 * a == 0) by (nonlinear_arith);
    assert(a * 0 == 0) by (nonlinear_arith);
    assert(1 * a == a) by (nonlinear_arith);
    assert(a * 1 == a) by (nonlinear_arith);
}

/// A difference of canonical values is zero exactly when they are equal, and
/// the difference with zero is the value itself.
pub proof fn lemma_fsub_zero(a: nat, b: nat)
    requires
        a < modulus(),
        b < modulus(),
    ensures
        fsub(a, b) == 0 <==> a == b,
        fsub(a, 0) == a,
        fneg(0) == 0,
{
    reveal(fadd);
    reveal(fneg);
}

/// The fifth power, whichever way the four products are taken.
pub proof fn lemma_pow5_chain(x: nat)
    ensures
        fmul(fmul(fmul(x, x), fmul(x, x)), x) == fpow5(x),
        fmul(fmul(fmul(fmul(x, x), x), x), x) == fpow5(x),
{
    reveal(fmul);
    reveal(fpow5);
    let p = modulus() as int;
    let a = (x * x) as int;
    lemma_mul_mod_noop(a, a, p);
    lemma_mul_mod_noop(a * a, x as int, p);
    lemma_mod_twice(x as int, p);
    assert(((a * a) % p) * (x as int % p) % p == (a * a * x) % p);
    lemma_mul_mod_noop((a * a) % p, x as int, p);
    lemma_mod_twice(a * a, p);
    assert(a * a * x == x * x * x * x * x) by (nonlinear_arith)
        requires
            a == x * x,
    ;
    // (((x * x) * x) * x) * x, reducing after each product
    let b = a * x;
    lemma_mul_mod_noop(a, x as int, p);
    lemma_mul_mod_noop(a % p, x as int, p);
    lemma_mod_twice(a, p);
    assert(fmul(fmul(x, x), x) == (b % p) as nat);
    lemma_mul_mod_noop(b, x as int, p);
    lemma_mul_mod_noop(b % p, x as int, p);
    lemma_mod_twice(b, p);
    let c = b * x;
    assert(fmul(fmul(fmul(x, x), x), x) == (c % p) as nat);
    lemma_mul_mod_noop(c, x as int, p);
    lemma_mul_mod_noop(c % p, x as int, p);
    lemma_mod_twice(c, p);
    assert(c * x == x * x * x * x * x) by (nonlinear_arith)
        requires
            c == b * x,
            b == a * x,
            a == x * x,
    ;
}

/// The third power by two products.
pub proof fn lemma_cube_chain(x: nat)
    ensures
        fmul(fmul(x, x), x) == fcube(x),
{
    reveal(fmul);
    reveal(fcube);
    let p = modulus() as int;
    let a = (x * x) as int;
    lemma_mul_mod_noop(a, x as int, p);
    lemma_mul_mod_noop(a % p, x as int, p);
    lemma_mod_twice(a, p);
}

/// One minus a bit is the other bit.
pub proof fn lemma_fsub_bit()
    ensures
        fsub(1, 0) == 1,
        fsub(1, 1) == 0,
{
    reveal(fadd);
    reveal(fneg);
}

} // verus!
