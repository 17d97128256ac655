//! Prime fields, as the protocols use them.

use vstd::arithmetic::div_mod::{lemma_mod_twice, lemma_small_mod, lemma_sub_mod_noop};
use vstd::prelude::*;

verus! {

/// The number that four 64-bit limbs write, least significant limb first.
pub open spec fn limbs_value(limbs: Seq<u64>) -> nat {
    (limbs[0] + 0x1_0000_0000_0000_0000int * limbs[1]
        + 0x1_0000_0000_0000_0000_0000_0000_0000_0000int * limbs[2]
        + 0x1_0000_0000_0000_0000_0000_0000_0000_0000_0000_0000_0000_0000int * limbs[3]) as nat
}

/// Values that can be added share by share: field elements, and the points of a
/// group over the field.
pub trait DomainCoeff: Copy {
    /// What a value stands for.
    type Model;

    spec fn model(self) -> Self::Model;

    /// The sum of two values, as what they stand for.
    spec fn sum(a: Self::Model, b: Self::Model) -> Self::Model;

    fn plus(self, other: Self) -> (r: Self)
        ensures
            r.model() == Self::sum(self.model(), other.model()),
    ;
}

/// What the values of a list stand for.
pub open spec fn models<T: DomainCoeff>(values: Seq<T>) -> Seq<T::Model> {
    values.map_values(|x: T| x.model())
}

/// The elements of a prime field, each standing for its residue.
pub trait PrimeField: DomainCoeff<Model = nat> {
    spec fn modulus() -> nat;

    /// There are at least two residues, and the sum is the sum of residues.
    proof fn field_facts()
        ensures
            Self::modulus() > 1,
            forall|a: nat, b: nat| #[trigger] Self::sum(a, b) == (a + b) % Self::modulus(),
    ;

    fn zero() -> (r: Self)
        ensures
            r.model() == 0,
    ;

    fn one() -> (r: Self)
        ensures
            r.model() == 1,
    ;

    fn is_one(self) -> (b: bool)
        ensures
            b <==> self.model() == 1,
    ;

    fn from_u64(x: u64) -> (r: Self)
        ensures
            r.model() == x as nat % Self::modulus(),
    ;

    fn minus(self, other: Self) -> (r: Self)
        ensures
            r.model() == (self.model() - other.model()) % Self::modulus() as int,
    ;

    fn times(self, other: Self) -> (r: Self)
        ensures
            r.model() == (self.model() * other.model()) % Self::modulus(),
    ;

    fn double(self) -> (r: Self)
        ensures
            r.model() == (2 * self.model()) % Self::modulus(),
    ;

    /// The quotient: what gives `self` when multiplied by `other`.
    fn over(self, other: Self) -> (r: Self)
        requires
            other.model() != 0,
        ensures
            r.model() < Self::modulus(),
            (r.model() * other.model()) % Self::modulus() == self.model(),
    ;
}

/// Limbs that write the same number are the same.
pub proof fn law_limbs_are_unique(a: Seq<u64>, b: Seq<u64>)
    requires
        a.len() == 4,
        b.len() == 4,
        limbs_value(a) == limbs_value(b),
    ensures
        a == b,
{
    let base = 0x1_0000_0000_0000_0000int;
    let a3 = a[3] as int;
    let b3 = b[3] as int;
    let a2 = a[2] + base * a3;
    let b2 = b[2] + base * b3;
    let a1 = a[1] + base * a2;
    let b1 = b[1] + base * b2;
    assert(a[0] + base * a1 == b[0] + base * b1);
    assert(a1 == b1 && a[0] == b[0]);
    assert(a2 == b2 && a[1] == b[1]);
    assert(a3 == b3 && a[2] == b[2]);
    assert(a =~= b);
}

/// Limb by limb, a number is its lowest limb and 2 to the 64th times what the others write.
pub proof fn law_limbs_by_place(limbs: Seq<u64>)
    requires
        limbs.len() == 4,
    ensures
        limbs_value(limbs) == limbs[0] + 0x1_0000_0000_0000_0000 * (limbs[1]
            + 0x1_0000_0000_0000_0000 * (limbs[2] + 0x1_0000_0000_0000_0000 * limbs[3])),
{
}

/// What is added can be taken off again, in either order, and doubling is adding to itself.
pub proof fn law_minus_undoes_plus<F: PrimeField>(a: F, b: F, sum: F, other: F, back: F, double: F)
    requires
        a.model() < F::modulus(),
        call_ensures(F::plus, (a, b), sum),
        call_ensures(F::plus, (b, a), other),
        call_ensures(F::minus, (sum, b), back),
        call_ensures(F::double, (a,), double),
    ensures
        other.model() == sum.model(),
        back.model() == a.model(),
        a.model() == b.model() ==> double.model() == sum.model(),
{
    F::field_facts();
    let m = F::modulus() as int;
    let x = a.model() as int;
    let y = b.model() as int;
    lemma_sub_mod_noop(x + y, y, m);
    lemma_sub_mod_noop((x + y) % m, y, m);
    lemma_mod_twice(x + y, m);
    lemma_small_mod(a.model(), F::modulus());
}

/// What is divided can be multiplied back.
pub proof fn law_times_undoes_over<F: PrimeField>(a: F, b: F, quotient: F, back: F)
    requires
        call_ensures(F::over, (a, b), quotient),
        call_ensures(F::times, (quotient, b), back),
    ensures
        back.model() == a.model(),
{
}

} // verus!
