use circuit_samples::field::Fe;
use ff::{Field, PrimeField};
use halo2_proofs::pasta::Fp;

fn fe(x: Fp) -> Fe {
    Fe::from_bytes(&x.to_repr())
}

fn fp(x: &Fe) -> Fp {
    Fp::from_repr(x.to_repr()).unwrap()
}

/// The order of the field, least significant limb first.
const MODULUS: [u64; 4] = [
    0x992d30ed00000001,
    0x224698fc094cf91b,
    0x0000000000000000,
    0x4000000000000000,
];

#[test]
fn zero_and_one_are_the_field_s() {
    assert_eq!(fp(&Fe::zero()), Fp::zero());
    assert_eq!(fp(&Fe::one()), Fp::one());
    assert!(Fe::zero().is_zero());
    assert!(!Fe::one().is_zero());
}

#[test]
fn add_is_the_field_sum() {
    let a = Fe::from_u64(3);
    let b = Fe::from_u64(4);
    assert!(a.add(&b).eq(&Fe::from_u64(7)));
    assert_eq!(fp(&a.add(&b)), Fp::from(7));
    // p - 1 + 2 wraps to 1
    let top = fe(-Fp::one());
    assert!(top.add(&Fe::from_u64(2)).eq(&Fe::one()));
}

#[test]
fn mul_is_the_field_product() {
    let a = Fe::from_u64(3);
    let b = Fe::from_u64(4);
    assert!(a.mul(&b).eq(&Fe::from_u64(12)));
    let x = Fp::from_u128(0x1234_5678_9abc_def0_0fed_cba9_8765_4321);
    let y = Fp::from_u128(0xffff_ffff_ffff_ffff_ffff_ffff_ffff_fffe);
    assert_eq!(fp(&fe(x).mul(&fe(y))), x * y);
    // (p - 1)^2 = 1
    let top = fe(-Fp::one());
    assert!(top.mul(&top).eq(&Fe::one()));
}

#[test]
fn neg_is_the_additive_inverse() {
    let a = Fe::from_u64(5);
    assert_eq!(fp(&a.neg()), -Fp::from(5));
    assert!(a.add(&a.neg()).is_zero());
    assert!(Fe::zero().neg().is_zero());
    assert!(!a.neg().eq(&a));
}

#[test]
fn eq_compares_modulo_the_order() {
    let mut above = MODULUS;
    above[0] += 1;
    assert!(Fe::from_raw(above).eq(&Fe::one()));
    assert!(Fe::from_raw(MODULUS).is_zero());
    assert!(!Fe::from_u64(1).eq(&Fe::from_u64(2)));
}

#[test]
fn to_repr_is_canonical() {
    let mut above = MODULUS;
    above[0] += 7;
    assert_eq!(Fe::from_raw(above).to_repr(), Fp::from(7).to_repr());
    assert_eq!(Fe::from_raw(MODULUS).to_repr(), [0u8; 32]);
    let mut one = [0u8; 32];
    one[0] = 1;
    assert_eq!(Fe::one().to_repr(), one);
}

#[test]
fn from_u128_is_exact() {
    let v: u128 = 1 << 65;
    assert_eq!(fp(&Fe::from_u128(v)), Fp::from_u128(v));
    let mut bytes = [0u8; 32];
    bytes[8] = 2;
    assert_eq!(Fe::from_u128(v).to_repr(), bytes);
    assert_eq!(fp(&Fe::from_u128(u128::MAX)), Fp::from_u128(u128::MAX));
}

#[test]
fn from_bytes_round_trips() {
    let x = Fp::from_u128(0xdead_beef_0000_0000_1111_2222_3333_4444).square();
    assert_eq!(fp(&fe(x)), x);
    assert_eq!(fe(x).to_repr(), x.to_repr());
}

#[test]
fn from_raw_keeps_small_values() {
    assert!(Fe::from_raw([9, 0, 0, 0]).eq(&Fe::from_u64(9)));
    assert_eq!(fp(&Fe::from_raw([0, 1, 0, 0])), Fp::from_u128(1 << 64));
}
