use ark_ff::{BigInt, PrimeField as ArkPrimeField};
use zksaas::bls12_377;
use zksaas::bn254;
use zksaas::field::{DomainCoeff, PrimeField};

fn bls_minus_one() -> [u64; 4] {
    [
        0x0a11_8000_0000_0000,
        0x59aa_76fe_d000_0001,
        0x60b4_4d1e_5c37_b001,
        0x12ab_655e_9a2c_a556,
    ]
}

fn bn_minus_one() -> [u64; 4] {
    [
        0x43e1_f593_f000_0000,
        0x2833_e848_79b9_7091,
        0xb850_45b6_8181_585d,
        0x3064_4e72_e131_a029,
    ]
}

#[test]
fn limbs_round_trip_below_the_modulus() {
    let top = bls12_377::Fr::from_limbs(bls_minus_one()).unwrap();
    assert_eq!(top.to_limbs(), bls_minus_one());
    let mut modulus = bls_minus_one();
    modulus[0] += 1;
    assert!(bls12_377::Fr::from_limbs(modulus).is_none());

    let top = bn254::Fr::from_limbs(bn_minus_one()).unwrap();
    assert_eq!(top.to_limbs(), bn_minus_one());
    let mut modulus = bn_minus_one();
    modulus[0] += 1;
    assert!(bn254::Fr::from_limbs(modulus).is_none());
    assert!(bn254::Fr::from_limbs([0, 0, 0, u64::MAX]).is_none());
}

fn exact_values<F: PrimeField + PartialEq + std::fmt::Debug>(minus_one: F) {
    let seven = F::from_u64(7);
    let five = F::from_u64(5);
    assert_eq!(seven.plus(five), F::from_u64(12));
    assert_eq!(minus_one.plus(seven), F::from_u64(6));
    assert_eq!(seven.minus(five), F::from_u64(2));
    assert_eq!(F::zero().minus(F::one()), minus_one);
    assert_eq!(seven.times(five), F::from_u64(35));
    assert_eq!(minus_one.times(minus_one), F::one());
    assert_eq!(seven.double(), F::from_u64(14));
    assert_eq!(minus_one.double(), F::zero().minus(F::from_u64(2)));
    assert_eq!(F::from_u64(35).over(five), seven);
    assert_eq!(seven.over(five).times(five), seven);
    assert_ne!(seven.over(five), seven);
    assert!(F::one().is_one());
    assert!(!seven.is_one());
    assert!(!F::zero().is_one());
}

#[test]
fn bls12_377_values() {
    exact_values(bls12_377::Fr::from_limbs(bls_minus_one()).unwrap());
}

#[test]
fn bn254_values() {
    exact_values(bn254::Fr::from_limbs(bn_minus_one()).unwrap());
}

#[test]
fn only_the_number_one_is_one() {
    for limbs in [[1, 1, 0, 0], [1, 0, 1, 0], [1, 0, 0, 1], [2, 0, 0, 0]] {
        assert!(!bls12_377::Fr::from_limbs(limbs).unwrap().is_one());
        assert!(!bn254::Fr::from_limbs(limbs).unwrap().is_one());
    }
}

#[test]
fn half_of_one() {
    // one half is (modulus + 1) / 2
    let half = bn254::Fr::one().over(bn254::Fr::from_u64(2));
    assert_eq!(
        half.to_limbs(),
        [
            0xa1f0_fac9_f800_0001,
            0x9419_f424_3cdc_b848,
            0xdc28_22db_40c0_ac2e,
            0x1832_2739_7098_d014,
        ]
    );
}

#[test]
fn the_modulus_is_that_of_the_curve() {
    let minus_one = ark_bls12_377::Fr::from_bigint(BigInt(bls_minus_one())).unwrap();
    assert_eq!(minus_one + ark_bls12_377::Fr::from(1u64), ark_bls12_377::Fr::from(0u64));
    let minus_one = ark_bn254::Fr::from_bigint(BigInt(bn_minus_one())).unwrap();
    assert_eq!(minus_one + ark_bn254::Fr::from(1u64), ark_bn254::Fr::from(0u64));
}
