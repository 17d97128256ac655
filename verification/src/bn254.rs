//! The scalar field of the curve BN254.

use crate::field::{law_limbs_are_unique, limbs_value, DomainCoeff, PrimeField};
use ark_ff::{BigInt, Field as ArkField, PrimeField as ArkPrimeField};
use vstd::arithmetic::div_mod::lemma_small_mod;
use vstd::prelude::*;

verus! {

/// The order of the field.
pub open spec fn modulus() -> nat {
    21888242871839275222246405745257275088548364400416034343698204186575808495617nat
}

/// Tries the limbs with `ark_ff`'s `PrimeField::from_bigint`, which takes the numbers
/// below the modulus and no others, and reads them back with `into_bigint`.
#[verifier::external_body]
fn ark_reduced(limbs: [u64; 4]) -> (r: Option<[u64; 4]>)
    ensures
        r is Some <==> limbs_value(limbs@) < modulus(),
        r matches Some(same) ==> same == limbs,
{
    ark_bn254::Fr::from_bigint(BigInt(limbs)).map(|x| x.into_bigint().0)
}

/// Adds with `ark_ff`'s `+` on field elements: the sum of the residues, reduced.
#[verifier::external_body]
fn ark_add(a: [u64; 4], b: [u64; 4]) -> (r: [u64; 4])
    requires
        limbs_value(a@) < modulus(),
        limbs_value(b@) < modulus(),
    ensures
        limbs_value(r@) == (limbs_value(a@) + limbs_value(b@)) % modulus(),
{
    let x = ark_bn254::Fr::from_bigint(BigInt(a)).unwrap();
    let y = ark_bn254::Fr::from_bigint(BigInt(b)).unwrap();
    (x + y).into_bigint().0
}

/// Subtracts with `ark_ff`'s `-` on field elements: the difference of the residues,
/// reduced.
#[verifier::external_body]
fn ark_sub(a: [u64; 4], b: [u64; 4]) -> (r: [u64; 4])
    requires
        limbs_value(a@) < modulus(),
        limbs_value(b@) < modulus(),
    ensures
        limbs_value(r@) == (limbs_value(a@) - limbs_value(b@)) % modulus() as int,
{
    let x = ark_bn254::Fr::from_bigint(BigInt(a)).unwrap();
    let y = ark_bn254::Fr::from_bigint(BigInt(b)).unwrap();
    (x - y).into_bigint().0
}

/// Multiplies with `ark_ff`'s `*` on field elements: the product of the residues,
/// reduced.
#[verifier::external_body]
fn ark_mul(a: [u64; 4], b: [u64; 4]) -> (r: [u64; 4])
    requires
        limbs_value(a@) < modulus(),
        limbs_value(b@) < modulus(),
    ensures
        limbs_value(r@) == (limbs_value(a@) * limbs_value(b@)) % modulus(),
{
    let x = ark_bn254::Fr::from_bigint(BigInt(a)).unwrap();
    let y = ark_bn254::Fr::from_bigint(BigInt(b)).unwrap();
    (x * y).into_bigint().0
}

/// Doubles with `ark_ff`'s `Field::double`: twice the residue, reduced.
#[verifier::external_body]
fn ark_double(a: [u64; 4]) -> (r: [u64; 4])
    requires
        limbs_value(a@) < modulus(),
    ensures
        limbs_value(r@) == (2 * limbs_value(a@)) % modulus(),
{
    let x = ark_bn254::Fr::from_bigint(BigInt(a)).unwrap();
    x.double().into_bigint().0
}

/// Divides with `ark_ff`'s `/` on field elements, which multiplies by the inverse of
/// the divisor and panics where the divisor is zero: the result times the divisor is
/// the dividend.
#[verifier::external_body]
fn ark_div(a: [u64; 4], b: [u64; 4]) -> (r: [u64; 4])
    requires
        limbs_value(a@) < modulus(),
        0 < limbs_value(b@) < modulus(),
    ensures
        limbs_value(r@) < modulus(),
        (limbs_value(r@) * limbs_value(b@)) % modulus() == limbs_value(a@),
{
    let x = ark_bn254::Fr::from_bigint(BigInt(a)).unwrap();
    let y = ark_bn254::Fr::from_bigint(BigInt(b)).unwrap();
    (x / y).into_bigint().0
}

/// An element of the scalar field, kept as the limbs of its residue.
#[derive(Clone, Copy, Debug, PartialEq, Eq)]
pub struct Fr {
    limbs: [u64; 4],
}

impl Fr {
    #[verifier::type_invariant]
    spec fn reduced(self) -> bool {
        limbs_value(self.limbs@) < modulus()
    }

    /// The residue that the element stands for.
    pub closed spec fn residue(self) -> nat {
        limbs_value(self.limbs@)
    }

    /// The element with these limbs, least significant first, where they write a
    /// number below the modulus.
    pub fn from_limbs(limbs: [u64; 4]) -> (r: Option<Fr>)
        ensures
            r is Some <==> limbs_value(limbs@) < modulus(),
            r matches Some(x) ==> x.residue() == limbs_value(limbs@),
    {
        match ark_reduced(limbs) {
            Some(limbs) => Some(Fr { limbs }),
            None => None,
        }
    }

    /// The limbs of the residue, least significant first.
    pub fn to_limbs(self) -> (limbs: [u64; 4])
        ensures
            limbs_value(limbs@) == self.residue(),
            self.residue() < modulus(),
    {
        proof {
            use_type_invariant(&self);
        }
        self.limbs
    }
}

impl DomainCoeff for Fr {
    type Model = nat;

    open spec fn model(self) -> nat {
        self.residue()
    }

    open spec fn sum(a: nat, b: nat) -> nat {
        (a + b) % modulus()
    }

    fn plus(self, other: Self) -> (r: Self) {
        proof {
            use_type_invariant(&self);
            use_type_invariant(&other);
        }
        let limbs: [u64; 4] = ark_add(self.limbs, other.limbs);
        Fr { limbs }
    }
}

impl PrimeField for Fr {
    open spec fn modulus() -> nat {
        modulus()
    }

    proof fn field_facts() {
    }

    fn zero() -> (r: Self) {
        Fr { limbs: [0, 0, 0, 0] }
    }

    fn one() -> (r: Self) {
        Fr { limbs: [1, 0, 0, 0] }
    }

    fn is_one(self) -> (b: bool) {
        self.limbs[0] == 1 && self.limbs[1] == 0 && self.limbs[2] == 0 && self.limbs[3] == 0
    }

    fn from_u64(x: u64) -> (r: Self) {
        Fr { limbs: [x, 0, 0, 0] }
    }

    fn minus(self, other: Self) -> (r: Self) {
        proof {
            use_type_invariant(&self);
            use_type_invariant(&other);
        }
        let limbs: [u64; 4] = ark_sub(self.limbs, other.limbs);
        Fr { limbs }
    }

    fn times(self, other: Self) -> (r: Self) {
        proof {
            use_type_invariant(&self);
            use_type_invariant(&other);
        }
        let limbs: [u64; 4] = ark_mul(self.limbs, other.limbs);
        Fr { limbs }
    }

    fn double(self) -> (r: Self) {
        proof {
            use_type_invariant(&self);
        }
        let limbs: [u64; 4] = ark_double(self.limbs);
        Fr { limbs }
    }

    fn over(self, other: Self) -> (r: Self) {
        proof {
            use_type_invariant(&self);
            use_type_invariant(&other);
        }
        let limbs: [u64; 4] = ark_div(self.limbs, other.limbs);
        Fr { limbs }
    }
}

/// Elements are made of the limbs of the numbers below the order of the field, and of no
/// others, and give the same limbs back.
pub proof fn law_limbs_come_back(limbs: [u64; 4], r: Option<Fr>, back: [u64; 4])
    requires
        call_ensures(Fr::from_limbs, (limbs,), r),
        r matches Some(x) ==> call_ensures(Fr::to_limbs, (x,), back),
    ensures
        r is Some <==> limbs@[0] + 0x1_0000_0000_0000_0000 * (limbs@[1]
            + 0x1_0000_0000_0000_0000 * (limbs@[2] + 0x1_0000_0000_0000_0000 * limbs@[3]))
            < 21888242871839275222246405745257275088548364400416034343698204186575808495617int,
        r is Some ==> back@ == limbs@,
{
    if r is Some {
        law_limbs_are_unique(limbs@, back@);
    }
}

/// A 64-bit number is the lowest limb of its element, whose other limbs are zero.
pub proof fn law_small_numbers(x: u64, r: Fr, limbs: [u64; 4])
    requires
        call_ensures(<Fr as PrimeField>::from_u64, (x,), r),
        call_ensures(Fr::to_limbs, (r,), limbs),
    ensures
        limbs@ == seq![x, 0, 0, 0],
{
    lemma_small_mod(x as nat, modulus());
    law_limbs_are_unique(limbs@, seq![x, 0, 0, 0]);
}

} // verus!
