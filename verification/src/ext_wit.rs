//! The extended witness: the shares of the quotient polynomial of a proof.
//!
//! From shares of the evaluations of three polynomials `p`, `q` and `w` the parties
//! compute shares of the coefficients of the quotient `h`. The transforms between
//! evaluations and coefficients are rounds of the network; each function here takes the
//! results of one round and says what the next one is.

use crate::error::MpcNetError;
use crate::field::{models, DomainCoeff, PrimeField};
use crate::pack::{copy, PackedSharingParams};
use crate::stream_id::MultiplexedStreamID;
use std::marker::PhantomData;
use vstd::arithmetic::div_mod::{
    lemma_mod_bound, lemma_mod_twice, lemma_mul_mod_noop_left, lemma_mul_mod_noop_right,
    lemma_small_mod, lemma_sub_mod_noop,
};
use vstd::arithmetic::mul::lemma_mul_is_commutative;
use vstd::arithmetic::power2::{lemma2_to64, lemma_pow2_unfold, pow2};
use vstd::prelude::*;

verus! {

/// What the computation needs to know of the constraint domains: the number of
/// constraints, and the size of the smaller domain.
#[derive(Clone, Copy, Debug, PartialEq, Eq)]
pub struct ConstraintDomain {
    pub m: usize,
    pub size: u64,
}

impl ConstraintDomain {
    /// Whether one can divide by the size of the domain in the field of this order, and
    /// twice the number of constraints is a length.
    pub open spec fn usable(self, modulus: nat) -> bool {
        self.size as nat % modulus != 0 && 2 * self.m <= usize::MAX
    }
}

/// Which of the two constraint domains: the second has twice the size of the first.
#[derive(Clone, Copy, Debug, PartialEq, Eq, Structural)]
pub enum Domain {
    Constraint,
    Constraint2,
}

/// From coefficients to evaluations, or back.
#[derive(Clone, Copy, Debug, PartialEq, Eq, Structural)]
pub enum Direction {
    Forward,
    Inverse,
}

/// A distributed transform that the parties are to do next.
pub struct Transform<F> {
    pub shares: Vec<F>,
    pub direction: Direction,
    pub rearrange: bool,
    pub pad: usize,
    pub degree2: bool,
    pub domain: Domain,
    pub channel: MultiplexedStreamID,
}

/// Three transforms that are done side by side, each on its own channel.
pub struct Batch<F> {
    pub p: Transform<F>,
    pub q: Transform<F>,
    pub w: Transform<F>,
}

/// From shares of evaluations on the first domain to coefficients, for the second.
pub open spec fn interpolation<F>(shares: Vec<F>, channel: MultiplexedStreamID) -> Transform<F> {
    Transform {
        shares,
        direction: Direction::Inverse,
        rearrange: true,
        pad: 2,
        degree2: false,
        domain: Domain::Constraint,
        channel,
    }
}

/// From shares of coefficients to evaluations on the second domain.
pub open spec fn evaluation<F>(shares: Vec<F>, channel: MultiplexedStreamID) -> Transform<F> {
    Transform {
        shares,
        direction: Direction::Forward,
        rearrange: true,
        pad: 1,
        degree2: false,
        domain: Domain::Constraint2,
        channel,
    }
}

/// From shares of the quotient's evaluations, which have twice the degree, to its
/// coefficients.
pub open spec fn extraction<F>(shares: Vec<F>) -> Transform<F> {
    Transform {
        shares,
        direction: Direction::Inverse,
        rearrange: false,
        pad: 1,
        degree2: true,
        domain: Domain::Constraint2,
        channel: MultiplexedStreamID::Zero,
    }
}

/// The residues of `p * q - w`, element by element.
pub open spec fn products(p: Seq<nat>, q: Seq<nat>, w: Seq<nat>, modulus: nat) -> Seq<nat> {
    Seq::new(p.len(), |i: int| ((p[i] * q[i] - w[i]) % modulus as int) as nat)
}

/// Whether `r` is, element by element, `v` times `t` divided by `size`.
pub open spec fn is_quotient(r: Seq<nat>, v: Seq<nat>, t: nat, size: u64, modulus: nat) -> bool {
    &&& r.len() == v.len()
    &&& forall|i: int|
        0 <= i < r.len() ==> #[trigger] r[i] < modulus && (r[i] * size) % modulus as int == (v[i]
            * t) % modulus
}

/// The first `2 * m` of some shares, or all if there are fewer.
pub open spec fn first_coefficients<F>(shares: Seq<F>, cd: ConstraintDomain) -> Seq<F> {
    if shares.len() <= 2 * cd.m {
        shares
    } else {
        shares.take(2 * cd.m as int)
    }
}

fn interpolate<F>(shares: Vec<F>, channel: MultiplexedStreamID) -> (r: Transform<F>)
    ensures
        r == interpolation(shares, channel),
{
    Transform {
        shares,
        direction: Direction::Inverse,
        rearrange: true,
        pad: 2,
        degree2: false,
        domain: Domain::Constraint,
        channel,
    }
}

fn evaluate<F>(shares: Vec<F>, channel: MultiplexedStreamID) -> (r: Transform<F>)
    ensures
        r == evaluation(shares, channel),
{
    Transform {
        shares,
        direction: Direction::Forward,
        rearrange: true,
        pad: 1,
        degree2: false,
        domain: Domain::Constraint2,
        channel,
    }
}

fn extract<F>(shares: Vec<F>) -> (r: Transform<F>)
    ensures
        r == extraction(shares),
{
    Transform {
        shares,
        direction: Direction::Inverse,
        rearrange: false,
        pad: 1,
        degree2: true,
        domain: Domain::Constraint2,
        channel: MultiplexedStreamID::Zero,
    }
}

/// The three interpolations at the beginning.
pub open spec fn interpolations<F>(p_eval: Vec<F>, q_eval: Vec<F>, w_eval: Vec<F>) -> Batch<F> {
    Batch {
        p: interpolation(p_eval, MultiplexedStreamID::Zero),
        q: interpolation(q_eval, MultiplexedStreamID::One),
        w: interpolation(w_eval, MultiplexedStreamID::Two),
    }
}

fn interpolate_all<F>(p_eval: Vec<F>, q_eval: Vec<F>, w_eval: Vec<F>) -> (r: Batch<F>)
    ensures
        r == interpolations(p_eval, q_eval, w_eval),
{
    Batch {
        p: interpolate(p_eval, MultiplexedStreamID::Zero),
        q: interpolate(q_eval, MultiplexedStreamID::One),
        w: interpolate(w_eval, MultiplexedStreamID::Two),
    }
}

/// The three evaluations that follow.
pub open spec fn evaluations<F>(p_coeff: Vec<F>, q_coeff: Vec<F>, w_coeff: Vec<F>) -> Batch<F> {
    Batch {
        p: evaluation(p_coeff, MultiplexedStreamID::Zero),
        q: evaluation(q_coeff, MultiplexedStreamID::One),
        w: evaluation(w_coeff, MultiplexedStreamID::Two),
    }
}

fn evaluate_all<F>(p_coeff: Vec<F>, q_coeff: Vec<F>, w_coeff: Vec<F>) -> (r: Batch<F>)
    ensures
        r == evaluations(p_coeff, q_coeff, w_coeff),
{
    Batch {
        p: evaluate(p_coeff, MultiplexedStreamID::Zero),
        q: evaluate(q_coeff, MultiplexedStreamID::One),
        w: evaluate(w_coeff, MultiplexedStreamID::Two),
    }
}

fn multiply_shares<F: PrimeField>(p_eval: &Vec<F>, q_eval: &Vec<F>, w_eval: &Vec<F>) -> (r: Vec<F>)
    requires
        p_eval@.len() <= q_eval@.len(),
        p_eval@.len() <= w_eval@.len(),
    ensures
        models(r@) == products(models(p_eval@), models(q_eval@), models(w_eval@), F::modulus()),
{
    let ghost want = products(models(p_eval@), models(q_eval@), models(w_eval@), F::modulus());
    let mut r: Vec<F> = Vec::new();
    for i in 0..p_eval.len()
        invariant
            p_eval@.len() <= q_eval@.len(),
            p_eval@.len() <= w_eval@.len(),
            want == products(models(p_eval@), models(q_eval@), models(w_eval@), F::modulus()),
            models(r@) == want.take(i as int),
    {
        let pq: F = p_eval[i].times(q_eval[i]);
        let x: F = pq.minus(w_eval[i]);
        proof {
            F::field_facts();
            let a = p_eval@[i as int].model() * q_eval@[i as int].model();
            let b = w_eval@[i as int].model() as int;
            let m = F::modulus() as int;
            lemma_sub_mod_noop(a as int, b, m);
            lemma_sub_mod_noop(a as int % m, b, m);
            lemma_mod_twice(a as int, m);
        }
        let ghost before = r@;
        r.push(x);
        assert(models(r@) =~= models(before).push(x.model()));
    }
    assert(models(r@) =~= want);
    r
}

/// Residues times a factor.
pub open spec fn scaled(v: Seq<nat>, by: nat, modulus: nat) -> Seq<nat> {
    Seq::new(v.len(), |i: int| ((v[i] * by) as int % modulus as int) as nat)
}

fn scale<F: PrimeField>(v: &Vec<F>, by: F) -> (r: Vec<F>)
    ensures
        models(r@) == scaled(models(v@), by.model(), F::modulus()),
{
    let ghost want = scaled(models(v@), by.model(), F::modulus());
    let mut r: Vec<F> = Vec::new();
    for i in 0..v.len()
        invariant
            want == scaled(models(v@), by.model(), F::modulus()),
            models(r@) == want.take(i as int),
    {
        let x: F = v[i].times(by);
        proof {
            F::field_facts();
            lemma_mod_bound(
                (v@[i as int].model() * by.model()) as int,
                F::modulus() as int,
            );
        }
        let ghost before = r@;
        r.push(x);
        assert(models(r@) =~= models(before).push(x.model()));
    }
    assert(models(r@) =~= want);
    r
}

pub(crate) proof fn lemma_scaled_back(n: int, inv: int, size: int, m: int)
    requires
        m > 1,
        (inv * size) % m == 1,
    ensures
        (((n * inv) % m) * size) % m == n % m,
{
    lemma_mul_mod_noop_left(n * inv, size, m);
    assert((n * inv) * size == n * (inv * size)) by (nonlinear_arith);
    lemma_mul_mod_noop_right(n, inv * size, m);
    assert(n * 1 == n);
}

/// The factor by which the quotient's evaluations are scaled.
fn size_inverse<F: PrimeField>(cd: ConstraintDomain) -> (inv: F)
    requires
        cd.usable(F::modulus()),
    ensures
        inv.model() < F::modulus(),
        (inv.model() * cd.size) % F::modulus() as int == 1,
{
    let inv: F = F::one().over(F::from_u64(cd.size));
    proof {
        F::field_facts();
        lemma_mul_mod_noop_right(inv.model() as int, cd.size as int, F::modulus() as int);
    }
    inv
}

/// Divides by the size of the domain.
fn divide<F: PrimeField>(h_eval: &Vec<F>, cd: ConstraintDomain) -> (r: Vec<F>)
    requires
        cd.usable(F::modulus()),
    ensures
        is_quotient(models(r@), models(h_eval@), 1, cd.size, F::modulus()),
{
    let sizeinv: F = size_inverse(cd);
    let r: Vec<F> = scale(h_eval, sizeinv);
    proof {
        F::field_facts();
        let m = F::modulus() as int;
        assert forall|i: int| 0 <= i < h_eval@.len() implies #[trigger] models(r@)[i] < m && (
        models(r@)[i] * cd.size) % m == (models(h_eval@)[i] * 1) as int % m by {
            let n = models(h_eval@)[i] as int;
            let inv = sizeinv.model() as int;
            lemma_scaled_back(n, inv, cd.size as int, m);
            lemma_mod_bound(n * inv, m);
        }
    }
    r
}

proof fn lemma_masked_quotient(r: Seq<nat>, v: Seq<nat>, t: nat, size: u64, modulus: nat)
    requires
        modulus > 0,
        is_quotient(r, scaled(v, t, modulus), 1, size, modulus),
    ensures
        is_quotient(r, v, t, size, modulus),
{
    let m = modulus as int;
    assert forall|i: int| 0 <= i < r.len() implies #[trigger] r[i] < modulus && (r[i] * size) % m
        == (v[i] * t) as int % m by {
        lemma_mod_bound((v[i] * t) as int, m);
        lemma_mod_twice((v[i] * t) as int, m);
    }
}

fn take_first<F>(h_coeff: Vec<F>, cd: ConstraintDomain) -> (r: Vec<F>)
    requires
        2 * cd.m <= usize::MAX,
    ensures
        r@ == first_coefficients(h_coeff@, cd),
{
    let mut r: Vec<F> = h_coeff;
    r.truncate(2 * cd.m);
    r
}

/// Shares of the evaluations or of the coefficients of `p`, `q` and `w`.
pub type Triple<F> = (Vec<F>, Vec<F>, Vec<F>);

/// Whether there are shares of `q` and of `w` for every share of `p`.
pub open spec fn complete<F>(shares: Triple<F>) -> bool {
    shares.0@.len() <= shares.1@.len() && shares.0@.len() <= shares.2@.len()
}

/// Whether `next` is the transform of the quotient that these evaluations make, masked
/// with `t`.
pub open spec fn extracts<F: PrimeField>(
    next: Transform<F>,
    evals: Triple<F>,
    t: nat,
    cd: ConstraintDomain,
) -> bool {
    &&& next == extraction(next.shares)
    &&& is_quotient(
        models(next.shares@),
        products(models(evals.0@), models(evals.1@), models(evals.2@), F::modulus()),
        t,
        cd.size,
        F::modulus(),
    )
}

/// The computation of `h` while the interpolations are under way.
pub struct Interpolating<F: PrimeField> {
    cd: ConstraintDomain,
    field: PhantomData<F>,
}

/// The computation of `h` while the evaluations are under way.
pub struct Evaluating<F: PrimeField> {
    cd: ConstraintDomain,
    field: PhantomData<F>,
}

/// The computation of `h` while its coefficients are being extracted.
pub struct Extracting<F: PrimeField> {
    cd: ConstraintDomain,
    field: PhantomData<F>,
}

/// Begins to compute `h` from shares of the evaluations of `p`, `q` and `w`.
pub fn h<F: PrimeField>(
    p_eval: Vec<F>,
    q_eval: Vec<F>,
    w_eval: Vec<F>,
    cd: &ConstraintDomain,
) -> (r: (Batch<F>, Interpolating<F>))
    requires
        cd.usable(F::modulus()),
    ensures
        r.0 == interpolations(p_eval, q_eval, w_eval),
        r.1.cd() == *cd,
{
    (interpolate_all(p_eval, q_eval, w_eval), Interpolating { cd: *cd, field: PhantomData })
}

impl<F: PrimeField> Interpolating<F> {
    #[verifier::type_invariant]
    spec fn ready(self) -> bool {
        self.cd.usable(F::modulus())
    }

    /// The domains.
    pub closed spec fn cd(self) -> ConstraintDomain {
        self.cd
    }

    /// The interpolations have given coefficients, to be evaluated next.
    pub fn interpolated(self, coeffs: Result<Triple<F>, MpcNetError>) -> (r: Result<
        (Batch<F>, Evaluating<F>),
        MpcNetError,
    >)
        ensures
            match (coeffs, r) {
                (Ok(coeffs), Ok((next, state))) => next == evaluations(
                    coeffs.0,
                    coeffs.1,
                    coeffs.2,
                ) && state.cd() == self.cd(),
                (Err(cause), Err(e)) => e == cause,
                _ => false,
            },
    {
        proof {
            use_type_invariant(&self);
        }
        match coeffs {
            Ok((p_coeff, q_coeff, w_coeff)) => Ok(
                (
                    evaluate_all(p_coeff, q_coeff, w_coeff),
                    Evaluating { cd: self.cd, field: PhantomData },
                ),
            ),
            Err(e) => Err(e),
        }
    }
}

impl<F: PrimeField> Evaluating<F> {
    #[verifier::type_invariant]
    spec fn ready(self) -> bool {
        self.cd.usable(F::modulus())
    }

    /// The domains.
    pub closed spec fn cd(self) -> ConstraintDomain {
        self.cd
    }

    /// The evaluations are there: of the quotient that they make, the coefficients are
    /// to be extracted next.
    pub fn evaluated(self, evals: Result<Triple<F>, MpcNetError>) -> (r: Result<
        (Transform<F>, Extracting<F>),
        MpcNetError,
    >)
        requires
            evals matches Ok(evals) ==> complete(evals),
        ensures
            match (evals, r) {
                (Ok(evals), Ok((next, state))) => extracts(next, evals, 1, self.cd()) && state.cd()
                    == self.cd(),
                (Err(cause), Err(e)) => e == cause,
                _ => false,
            },
    {
        proof {
            use_type_invariant(&self);
        }
        match evals {
            Ok((p_eval, q_eval, w_eval)) => {
                let products: Vec<F> = multiply_shares(&p_eval, &q_eval, &w_eval);
                let h_eval: Vec<F> = divide(&products, self.cd);
                Ok((extract(h_eval), Extracting { cd: self.cd, field: PhantomData }))
            },
            Err(e) => Err(e),
        }
    }
}

impl<F: PrimeField> Extracting<F> {
    #[verifier::type_invariant]
    spec fn ready(self) -> bool {
        self.cd.usable(F::modulus())
    }

    /// The domains.
    pub closed spec fn cd(self) -> ConstraintDomain {
        self.cd
    }

    /// The coefficients are there; the higher ones, which are zero, are left out.
    pub fn extracted(self, coeffs: Result<Vec<F>, MpcNetError>) -> (r: Result<
        Vec<F>,
        MpcNetError,
    >)
        ensures
            match (coeffs, r) {
                (Ok(coeffs), Ok(h_coeff)) => h_coeff@ == first_coefficients(coeffs@, self.cd()),
                (Err(cause), Err(e)) => e == cause,
                _ => false,
            },
    {
        proof {
            use_type_invariant(&self);
        }
        match coeffs {
            Ok(h_coeff) => Ok(take_first(h_coeff, self.cd)),
            Err(e) => Err(e),
        }
    }
}

/// Whether these are `count` lists of `len` ones.
pub open spec fn reserved<F: PrimeField>(lists: Seq<Vec<F>>, count: nat, len: nat) -> bool {
    &&& lists.len() == count
    &&& forall|i: int| 0 <= i < lists.len() ==> (#[trigger] lists[i])@.len() == len
    &&& forall|i: int, k: int|
        0 <= i < lists.len() && 0 <= k < len ==> (#[trigger] lists[i]@[k]).model() == 1
}

fn reserve<F: PrimeField>(count: usize, len: usize) -> (lists: Vec<Vec<F>>)
    ensures
        reserved(lists@, count as nat, len as nat),
{
    let mut lists: Vec<Vec<F>> = Vec::new();
    for i in 0..count
        invariant
            reserved(lists@, i as nat, len as nat),
    {
        let mut list: Vec<F> = Vec::new();
        for k in 0..len
            invariant
                list@.len() == k,
                forall|j: int| 0 <= j < k ==> (#[trigger] list@[j]).model() == 1,
        {
            list.push(F::one());
        }
        lists.push(list);
    }
    lists
}

/// Stands for the randomness that the parties have prepared, to account for the memory
/// that it takes: so many lists of the length of a sharing of the constraints, and so
/// many of twice that length. What a round has used is dropped.
pub struct Preprocessing<F> {
    single: Vec<Vec<F>>,
    double: Vec<Vec<F>>,
}

impl<F> Preprocessing<F> {
    /// The lists of single length.
    pub closed spec fn single(self) -> Seq<Vec<F>> {
        self.single@
    }

    /// The lists of double length.
    pub closed spec fn double(self) -> Seq<Vec<F>> {
        self.double@
    }

    /// Drops this many lists of either kind, the last ones.
    fn spend(&mut self, single: usize, double: usize)
        requires
            single <= old(self).single().len(),
            double <= old(self).double().len(),
        ensures
            final(self).single() == old(self).single().take(
                old(self).single().len() - single,
            ),
            final(self).double() == old(self).double().take(
                old(self).double().len() - double,
            ),
    {
        self.single.truncate(self.single.len() - single);
        self.double.truncate(self.double.len() - double);
    }
}

impl<F: PrimeField> Preprocessing<F> {
    /// What the computation of an extended witness takes.
    fn prepare(cd: &ConstraintDomain, pp: &PackedSharingParams) -> (r: Self)
        requires
            cd.usable(F::modulus()),
            pp.l > 0,
        ensures
            reserved(r.single(), 3, (cd.m / pp.l) as nat),
            reserved(r.double(), 11, (2 * cd.m / pp.l as int) as nat),
    {
        Preprocessing { single: reserve(3, cd.m / pp.l), double: reserve(11, 2 * cd.m / pp.l) }
    }
}

/// The extended witness while the interpolations are under way.
pub struct WitnessInterpolating<F: PrimeField> {
    cd: ConstraintDomain,
    preprocessing: Preprocessing<F>,
}

/// The extended witness while the evaluations are under way.
pub struct WitnessEvaluating<F: PrimeField> {
    cd: ConstraintDomain,
    preprocessing: Preprocessing<F>,
}

/// The extended witness when its mask is to be drawn.
pub struct WitnessMasking<F: PrimeField> {
    cd: ConstraintDomain,
    preprocessing: Preprocessing<F>,
    h_eval: Vec<F>,
}

/// The extended witness while its coefficients are being extracted.
pub struct WitnessExtracting<F: PrimeField> {
    cd: ConstraintDomain,
    preprocessing: Preprocessing<F>,
}

/// Begins to compute the extended witness from shares of the evaluations of `p`, `q` and
/// `w`.
pub fn d_ext_wit<F: PrimeField>(
    p_eval: Vec<F>,
    q_eval: Vec<F>,
    w_eval: Vec<F>,
    pp: &PackedSharingParams,
    cd: &ConstraintDomain,
) -> (r: (Batch<F>, WitnessInterpolating<F>))
    requires
        cd.usable(F::modulus()),
        pp.l > 0,
    ensures
        r.0 == interpolations(p_eval, q_eval, w_eval),
        r.1.cd() == *cd,
        reserved(r.1.preprocessing().single(), 3, (cd.m / pp.l) as nat),
        reserved(r.1.preprocessing().double(), 11, (2 * cd.m / pp.l as int) as nat),
{
    let preprocessing: Preprocessing<F> = Preprocessing::prepare(cd, pp);
    (
        interpolate_all(p_eval, q_eval, w_eval),
        WitnessInterpolating { cd: *cd, preprocessing },
    )
}

impl<F: PrimeField> WitnessInterpolating<F> {
    #[verifier::type_invariant]
    spec fn ready(self) -> bool {
        &&& self.cd.usable(F::modulus())
        &&& self.preprocessing.single().len() == 3
        &&& self.preprocessing.double().len() == 11
    }

    /// The domains.
    pub closed spec fn cd(self) -> ConstraintDomain {
        self.cd
    }

    /// What is left of the preprocessing.
    pub closed spec fn preprocessing(self) -> Preprocessing<F> {
        self.preprocessing
    }

    /// The interpolations have given coefficients, to be evaluated next. They have used
    /// up the single lists, and three double ones.
    pub fn interpolated(self, coeffs: Result<Triple<F>, MpcNetError>) -> (r: Result<
        (Batch<F>, WitnessEvaluating<F>),
        MpcNetError,
    >)
        ensures
            match (coeffs, r) {
                (Ok(coeffs), Ok((next, state))) => {
                    &&& next == evaluations(coeffs.0, coeffs.1, coeffs.2)
                    &&& state.cd() == self.cd()
                    &&& state.preprocessing().single().len() == 0
                    &&& state.preprocessing().double() == self.preprocessing().double().take(8)
                },
                (Err(cause), Err(e)) => e == cause,
                _ => false,
            },
    {
        proof {
            use_type_invariant(&self);
        }
        let WitnessInterpolating { cd, mut preprocessing } = self;
        match coeffs {
            Ok((p_coeff, q_coeff, w_coeff)) => {
                preprocessing.spend(3, 3);
                Ok(
                    (
                        evaluate_all(p_coeff, q_coeff, w_coeff),
                        WitnessEvaluating { cd, preprocessing },
                    ),
                )
            },
            Err(e) => Err(e),
        }
    }
}

impl<F: PrimeField> WitnessEvaluating<F> {
    #[verifier::type_invariant]
    spec fn ready(self) -> bool {
        &&& self.cd.usable(F::modulus())
        &&& self.preprocessing.single().len() == 0
        &&& self.preprocessing.double().len() == 8
    }

    /// The domains.
    pub closed spec fn cd(self) -> ConstraintDomain {
        self.cd
    }

    /// What is left of the preprocessing.
    pub closed spec fn preprocessing(self) -> Preprocessing<F> {
        self.preprocessing
    }

    /// The evaluations are there: what they make is to be masked next. They have used up
    /// six double lists.
    pub fn evaluated(self, evals: Result<Triple<F>, MpcNetError>) -> (r: Result<
        WitnessMasking<F>,
        MpcNetError,
    >)
        requires
            evals matches Ok(evals) ==> complete(evals),
        ensures
            match (evals, r) {
                (Ok(evals), Ok(state)) => {
                    &&& state.h_eval() == products(
                        models(evals.0@),
                        models(evals.1@),
                        models(evals.2@),
                        F::modulus(),
                    )
                    &&& state.cd() == self.cd()
                    &&& state.preprocessing().single().len() == 0
                    &&& state.preprocessing().double() == self.preprocessing().double().take(2)
                },
                (Err(cause), Err(e)) => e == cause,
                _ => false,
            },
    {
        proof {
            use_type_invariant(&self);
        }
        let WitnessEvaluating { cd, mut preprocessing } = self;
        match evals {
            Ok((p_eval, q_eval, w_eval)) => {
                preprocessing.spend(0, 6);
                let h_eval: Vec<F> = multiply_shares(&p_eval, &q_eval, &w_eval);
                Ok(WitnessMasking { cd, preprocessing, h_eval })
            },
            Err(e) => Err(e),
        }
    }
}

impl<F: PrimeField> WitnessMasking<F> {
    #[verifier::type_invariant]
    spec fn ready(self) -> bool {
        &&& self.cd.usable(F::modulus())
        &&& self.preprocessing.single().len() == 0
        &&& self.preprocessing.double().len() == 2
    }

    /// The domains.
    pub closed spec fn cd(self) -> ConstraintDomain {
        self.cd
    }

    /// What is left of the preprocessing.
    pub closed spec fn preprocessing(self) -> Preprocessing<F> {
        self.preprocessing
    }

    /// The residues that are to be masked.
    pub closed spec fn h_eval(self) -> Seq<nat> {
        models(self.h_eval@)
    }

    /// The random element `t` was drawn: it masks every share, and the coefficients are
    /// to be extracted next.
    pub fn masked(self, t: F) -> (r: (Transform<F>, WitnessExtracting<F>))
        ensures
            r.0 == extraction(r.0.shares),
            is_quotient(
                models(r.0.shares@),
                self.h_eval(),
                t.model(),
                self.cd().size,
                F::modulus(),
            ),
            r.1.cd() == self.cd(),
            r.1.preprocessing() == self.preprocessing(),
    {
        proof {
            use_type_invariant(&self);
        }
        let WitnessMasking { cd, preprocessing, h_eval } = self;
        let masked: Vec<F> = scale(&h_eval, t);
        let quotient: Vec<F> = divide(&masked, cd);
        proof {
            F::field_facts();
            lemma_masked_quotient(
                models(quotient@),
                models(h_eval@),
                t.model(),
                cd.size,
                F::modulus(),
            );
        }
        (extract(quotient), WitnessExtracting { cd, preprocessing })
    }
}

impl<F: PrimeField> WitnessExtracting<F> {
    #[verifier::type_invariant]
    spec fn ready(self) -> bool {
        &&& self.cd.usable(F::modulus())
        &&& self.preprocessing.single().len() == 0
        &&& self.preprocessing.double().len() == 2
    }

    /// The domains.
    pub closed spec fn cd(self) -> ConstraintDomain {
        self.cd
    }

    /// What is left of the preprocessing.
    pub closed spec fn preprocessing(self) -> Preprocessing<F> {
        self.preprocessing
    }

    /// The coefficients are there, and the last of the preprocessing is used up; the
    /// higher coefficients, which are zero, are left out.
    pub fn extracted(self, coeffs: Result<Vec<F>, MpcNetError>) -> (r: Result<
        Vec<F>,
        MpcNetError,
    >)
        ensures
            match (coeffs, r) {
                (Ok(coeffs), Ok(h_coeff)) => h_coeff@ == first_coefficients(coeffs@, self.cd()),
                (Err(cause), Err(e)) => e == cause,
                _ => false,
            },
    {
        proof {
            use_type_invariant(&self);
        }
        let WitnessExtracting { cd, mut preprocessing } = self;
        match coeffs {
            Ok(h_coeff) => {
                preprocessing.spend(0, 2);
                Ok(take_first(h_coeff, cd))
            },
            Err(e) => Err(e),
        }
    }
}

/// Whether these are `start`, twice `start`, four times `start`, and so on.
pub open spec fn doubling<F: PrimeField>(shares: Seq<F>, start: F) -> bool {
    &&& shares.len() > 0 ==> shares[0] == start
    &&& forall|i: int|
        0 < i < shares.len() ==> (#[trigger] shares[i]).model() == (start.model() * pow2(i as nat))
            % F::modulus()
}

proof fn lemma_doubled(start: nat, i: nat, m: nat)
    requires
        m > 0,
    ensures
        (2 * ((start * pow2(i)) % m)) % m == (start * pow2(i + 1)) % m,
        start * pow2(1) == 2 * start,
{
    lemma_pow2_unfold(i + 1);
    lemma2_to64();
    assert(start * 2 == 2 * start);
    let a = start * pow2(i);
    lemma_mul_mod_noop_right(2, a as int, m as int);
    assert(2 * (start * pow2(i)) == start * (2 * pow2(i))) by (nonlinear_arith);
}

fn doubled_shares<F: PrimeField>(start: F, len: usize) -> (r: Vec<F>)
    ensures
        r@.len() == len,
        doubling(r@, start),
{
    let mut r: Vec<F> = Vec::new();
    let mut next: F = start;
    for i in 0..len
        invariant
            r@.len() == i,
            doubling(r@, start),
            i == 0 ==> next == start,
            i > 0 ==> next.model() == (start.model() * pow2(i as nat)) % F::modulus(),
    {
        r.push(next);
        proof {
            F::field_facts();
            lemma_doubled(start.model(), i as nat, F::modulus());
        }
        next = next.double();
    }
    r
}

/// Begins to compute the extended witness of shares that drop from the sky: from a
/// random element `start` on, each is twice the one before, the same for `p`, `q` and
/// `w`.
pub fn groth_ext_wit<F: PrimeField>(start: F, cd: &ConstraintDomain, pp: &PackedSharingParams) -> (r: (
    Batch<F>,
    WitnessInterpolating<F>,
))
    requires
        cd.usable(F::modulus()),
        pp.l > 0,
    ensures
        r.0 == interpolations(r.0.p.shares, r.0.q.shares, r.0.w.shares),
        r.0.p.shares@.len() == cd.m / pp.l,
        doubling(r.0.p.shares@, start),
        r.0.q.shares@ == r.0.p.shares@,
        r.0.w.shares@ == r.0.p.shares@,
        r.1.cd() == *cd,
        reserved(r.1.preprocessing().single(), 3, (cd.m / pp.l) as nat),
        reserved(r.1.preprocessing().double(), 11, (2 * cd.m / pp.l as int) as nat),
{
    let p_eval: Vec<F> = doubled_shares(start, cd.m / pp.l);
    let q_eval: Vec<F> = copy(&p_eval);
    let w_eval: Vec<F> = copy(&p_eval);
    d_ext_wit(p_eval, q_eval, w_eval, pp, cd)
}

/// The evaluations that are extracted, times the size of the domain, are
/// `(p * q - w) * t`.
pub proof fn law_quotient_equation(
    r: Seq<nat>,
    p: Seq<nat>,
    q: Seq<nat>,
    w: Seq<nat>,
    t: nat,
    size: u64,
    modulus: nat,
    i: int,
)
    requires
        modulus > 0,
        is_quotient(r, products(p, q, w, modulus), t, size, modulus),
        0 <= i < p.len(),
    ensures
        (r[i] * size) % modulus as int == ((p[i] * q[i] - w[i]) * t) % modulus as int,
{
    let n = p[i] * q[i] - w[i];
    lemma_mod_bound(n, modulus as int);
    lemma_mul_mod_noop_left(n, t as int, modulus as int);
    assert(r[i] < modulus);
}

/// The mask of the extended witness multiplies what is extracted: with the mask `t` it is
/// `t` times what is extracted for `h`, and so with the mask 1 it is the same. `inverse`
/// is the inverse of the size of the domain.
pub proof fn law_mask_multiplies(
    unmasked: Seq<nat>,
    masked: Seq<nat>,
    v: Seq<nat>,
    t: nat,
    size: u64,
    inverse: nat,
    modulus: nat,
)
    requires
        modulus > 1,
        (inverse * size) % modulus as int == 1,
        is_quotient(unmasked, v, 1, size, modulus),
        is_quotient(masked, v, t, size, modulus),
    ensures
        masked == scaled(unmasked, t, modulus),
        t == 1 ==> masked == unmasked,
{
    let m = modulus as int;
    assert forall|i: int| 0 <= i < masked.len() implies masked[i] == #[trigger] scaled(
        unmasked,
        t,
        modulus,
    )[i] by {
        assert(masked[i] < modulus && unmasked[i] < modulus);
        let a = masked[i] as int;
        let b = ((unmasked[i] * t) as int) % m;
        let n = v[i] as int;
        lemma_mod_bound((unmasked[i] * t) as int, m);
        // both give `n * t` when multiplied by the size
        assert((b * size) % m == (n * t) % m) by {
            lemma_mul_mod_noop_left((unmasked[i] * t) as int, size as int, m);
            assert((unmasked[i] * t) * size == (unmasked[i] * size) * t) by (nonlinear_arith);
            lemma_mul_mod_noop_left(unmasked[i] * size, t as int, m);
            lemma_mul_mod_noop_left(n, t as int, m);
        }
        lemma_cancel(a, b, size as int, inverse as int, m);
    }
    assert(masked =~= scaled(unmasked, t, modulus));
    if t == 1 {
        assert forall|i: int| 0 <= i < masked.len() implies masked[i] == #[trigger] unmasked[i] by {
            lemma_small_mod(unmasked[i], modulus);
            assert(scaled(unmasked, t, modulus)[i] == unmasked[i]);
        }
        assert(masked =~= unmasked);
    }
}

/// Residues in lists, times a factor.
pub open spec fn scaled_lists(lists: Seq<Seq<nat>>, by: nat, modulus: nat) -> Seq<Seq<nat>> {
    lists.map_values(|v: Seq<nat>| scaled(v, by, modulus))
}

/// Whether a transform of residues multiplies its result by what its argument is multiplied
/// by.
pub open spec fn scales(f: spec_fn(Seq<nat>) -> Seq<nat>, modulus: nat) -> bool {
    forall|v: Seq<nat>, by: nat| #[trigger]
        f(scaled(v, by, modulus)) == scaled(f(v), by, modulus)
}

/// The same of a transform that gives, for each share of its result, what is packed there.
pub open spec fn scales_packed(f: spec_fn(Seq<nat>) -> Seq<Seq<nat>>, modulus: nat) -> bool {
    forall|v: Seq<nat>, by: nat| #[trigger]
        f(scaled(v, by, modulus)) == scaled_lists(f(v), by, modulus)
}

proof fn lemma_first_scaled(lists: Seq<Seq<nat>>, by: nat, modulus: nat, cd: ConstraintDomain)
    ensures
        first_coefficients(scaled_lists(lists, by, modulus), cd) == scaled_lists(
            first_coefficients(lists, cd),
            by,
            modulus,
        ),
{
    assert(first_coefficients(scaled_lists(lists, by, modulus), cd) =~= scaled_lists(
        first_coefficients(lists, cd),
        by,
        modulus,
    ));
}

/// The extended witness is the mask times `h`. `unmasked` and `masked` are the evaluations
/// that the last transform takes, without and with the mask `t`; `extract` stands for that
/// transform, which scales. Then what is packed in the results with the mask is `t` times
/// what is packed in those without, and there are as many. The evaluations are those packed
/// in the shares of all parties, for which the same equation holds as for the shares, where
/// all parties have drawn the same mask. `inverse` is the inverse of the size of the domain.
pub proof fn law_witness_is_masked_h(
    extract: spec_fn(Seq<nat>) -> Seq<Seq<nat>>,
    unmasked: Seq<nat>,
    masked: Seq<nat>,
    v: Seq<nat>,
    t: nat,
    cd: ConstraintDomain,
    inverse: nat,
    modulus: nat,
)
    requires
        modulus > 1,
        (inverse * cd.size) % modulus as int == 1,
        scales_packed(extract, modulus),
        is_quotient(unmasked, v, 1, cd.size, modulus),
        is_quotient(masked, v, t, cd.size, modulus),
    ensures
        first_coefficients(extract(masked), cd) == scaled_lists(
            first_coefficients(extract(unmasked), cd),
            t,
            modulus,
        ),
        first_coefficients(extract(masked), cd).len() == first_coefficients(
            extract(unmasked),
            cd,
        ).len(),
{
    law_mask_multiplies(unmasked, masked, v, t, cd.size, inverse, modulus);
    lemma_first_scaled(extract(unmasked), t, modulus, cd);
}

proof fn lemma_products_scale(p: Seq<nat>, q: Seq<nat>, w: Seq<nat>, c: nat, modulus: nat)
    requires
        modulus > 0,
        p.len() <= w.len(),
    ensures
        products(scaled(p, c, modulus), q, scaled(w, c, modulus), modulus) == scaled(
            products(p, q, w, modulus),
            c,
            modulus,
        ),
{
    let m = modulus as int;
    let left = products(scaled(p, c, modulus), q, scaled(w, c, modulus), modulus);
    let right = scaled(products(p, q, w, modulus), c, modulus);
    assert forall|i: int| 0 <= i < p.len() implies left[i] == #[trigger] right[i] by {
        let pc = (p[i] * c) as int;
        let wc = (w[i] * c) as int;
        let n = p[i] * q[i] - w[i];
        lemma_mod_bound(pc, m);
        lemma_mod_bound(wc, m);
        lemma_mod_bound(n, m);
        lemma_mul_mod_noop_left(pc, q[i] as int, m);
        lemma_sub_mod_noop((pc % m) * q[i], wc % m, m);
        lemma_sub_mod_noop(pc * q[i], wc, m);
        lemma_mod_twice(wc, m);
        assert(pc * q[i] - wc == n * c) by (nonlinear_arith)
            requires
                pc == p[i] * c,
                wc == w[i] * c,
                n == p[i] * q[i] - w[i],
        ;
        lemma_mul_mod_noop_left(n, c as int, m);
    }
    assert(left =~= right);
}

/// `h` scales: with `p` and `w` multiplied by `c` it is multiplied by `c`. `extend` stands
/// for the interpolation and the evaluation, `extract` for the last transform; both scale.
/// `h` and `h_of_scaled` are the evaluations that the last transform takes; `inverse` is the
/// inverse of the size of the domain.
pub proof fn law_h_scales(
    extend: spec_fn(Seq<nat>) -> Seq<nat>,
    extract: spec_fn(Seq<nat>) -> Seq<Seq<nat>>,
    p: Seq<nat>,
    q: Seq<nat>,
    w: Seq<nat>,
    c: nat,
    h: Seq<nat>,
    h_of_scaled: Seq<nat>,
    cd: ConstraintDomain,
    inverse: nat,
    modulus: nat,
)
    requires
        modulus > 1,
        (inverse * cd.size) % modulus as int == 1,
        scales(extend, modulus),
        scales_packed(extract, modulus),
        extend(p).len() <= extend(w).len(),
        is_quotient(h, products(extend(p), extend(q), extend(w), modulus), 1, cd.size, modulus),
        is_quotient(
            h_of_scaled,
            products(
                extend(scaled(p, c, modulus)),
                extend(q),
                extend(scaled(w, c, modulus)),
                modulus,
            ),
            1,
            cd.size,
            modulus,
        ),
    ensures
        first_coefficients(extract(h_of_scaled), cd) == scaled_lists(
            first_coefficients(extract(h), cd),
            c,
            modulus,
        ),
{
    let v = products(extend(p), extend(q), extend(w), modulus);
    lemma_products_scale(extend(p), extend(q), extend(w), c, modulus);
    lemma_masked_quotient(h_of_scaled, v, c, cd.size, modulus);
    law_witness_is_masked_h(extract, h, h_of_scaled, v, c, cd, inverse, modulus);
}

/// `h` is symmetric in `p` and `q`. `extend` stands for the interpolation and the
/// evaluation, `extract` for the last transform. `h` and `h_of_swapped` are the evaluations
/// that the last transform takes; `inverse` is the inverse of the size of the domain.
pub proof fn law_h_is_symmetric(
    extend: spec_fn(Seq<nat>) -> Seq<nat>,
    extract: spec_fn(Seq<nat>) -> Seq<Seq<nat>>,
    p: Seq<nat>,
    q: Seq<nat>,
    w: Seq<nat>,
    h: Seq<nat>,
    h_of_swapped: Seq<nat>,
    cd: ConstraintDomain,
    inverse: nat,
    modulus: nat,
)
    requires
        modulus > 1,
        (inverse * cd.size) % modulus as int == 1,
        extend(p).len() == extend(q).len(),
        is_quotient(h, products(extend(p), extend(q), extend(w), modulus), 1, cd.size, modulus),
        is_quotient(
            h_of_swapped,
            products(extend(q), extend(p), extend(w), modulus),
            1,
            cd.size,
            modulus,
        ),
    ensures
        h_of_swapped == h,
        first_coefficients(extract(h_of_swapped), cd) == first_coefficients(extract(h), cd),
{
    let v = products(extend(p), extend(q), extend(w), modulus);
    let swapped = products(extend(q), extend(p), extend(w), modulus);
    assert forall|i: int| 0 <= i < v.len() implies v[i] == #[trigger] swapped[i] by {
        lemma_mul_is_commutative(extend(p)[i] as int, extend(q)[i] as int);
    }
    assert(v =~= swapped);
    law_mask_multiplies(h, h_of_swapped, v, 1, cd.size, inverse, modulus);
}

pub(crate) proof fn lemma_cancel(a: int, b: int, size: int, inverse: int, m: int)
    requires
        m > 1,
        (inverse * size) % m == 1,
        0 <= a < m,
        0 <= b < m,
        (a * size) % m == (b * size) % m,
    ensures
        a == b,
{
    lemma_mul_mod_noop_left(a * size, inverse, m);
    lemma_mul_mod_noop_left(b * size, inverse, m);
    assert((a * size) * inverse == a * (inverse * size)) by (nonlinear_arith);
    assert((b * size) * inverse == b * (inverse * size)) by (nonlinear_arith);
    lemma_mul_mod_noop_right(a, inverse * size, m);
    lemma_mul_mod_noop_right(b, inverse * size, m);
    assert(a * 1 == a && b * 1 == b);
    lemma_small_mod(a as nat, m as nat);
    lemma_small_mod(b as nat, m as nat);
}

/// No more than `2 * m` coefficients are kept, and these unchanged.
pub proof fn law_coefficients_are_kept<F>(shares: Seq<F>, cd: ConstraintDomain)
    ensures
        first_coefficients(shares, cd).len() <= 2 * cd.m,
        first_coefficients(shares, cd).is_prefix_of(shares),
{
}

/// The three transforms of a round are done side by side: each of `p`, `q` and `w` has its
/// own channel. What is given to an interpolation are evaluations on the first domain, which
/// are rearranged and extended to twice as many coefficients, since the second domain has
/// twice the size; what is given to an evaluation are coefficients for the second domain.
/// Neither has the degree of a product. All this for shares of any number.
pub proof fn law_transforms_of_h<F: PrimeField>(
    p_eval: Vec<F>,
    q_eval: Vec<F>,
    w_eval: Vec<F>,
    cd: ConstraintDomain,
    first: Batch<F>,
    interpolating: Interpolating<F>,
    coeffs: Triple<F>,
    second: Batch<F>,
    evaluating: Evaluating<F>,
)
    requires
        call_ensures(h::<F>, (p_eval, q_eval, w_eval, &cd), (first, interpolating)),
        call_ensures(
            Interpolating::<F>::interpolated,
            (interpolating, Ok(coeffs)),
            Ok((second, evaluating)),
        ),
    ensures
        first.p.shares@ == p_eval@ && first.q.shares@ == q_eval@ && first.w.shares@ == w_eval@,
        first.p.channel is Zero && first.q.channel is One && first.w.channel is Two,
        forall|t: Transform<F>|
            t == first.p || t == first.q || t == first.w ==> {
                &&& #[trigger] t.direction is Inverse
                &&& t.domain is Constraint
                &&& t.pad == 2
                &&& t.rearrange
                &&& !t.degree2
            },
        second.p.shares@ == coeffs.0@ && second.q.shares@ == coeffs.1@ && second.w.shares@
            == coeffs.2@,
        second.p.channel is Zero && second.q.channel is One && second.w.channel is Two,
        forall|t: Transform<F>|
            t == second.p || t == second.q || t == second.w ==> {
                &&& #[trigger] t.direction is Forward
                &&& t.domain is Constraint2
                &&& t.pad == 1
                &&& t.rearrange
                &&& !t.degree2
            },
{
}

/// The quotient has an evaluation for each of `p`, and this times the size of the domain is
/// `p * q - w`; its transform is back from the second domain, for the degree of a product.
/// Of the coefficients the first `2 * m` come back, unchanged, and all where there are fewer.
pub proof fn law_quotient_of_h<F: PrimeField>(
    p_eval: Vec<F>,
    q_eval: Vec<F>,
    w_eval: Vec<F>,
    cd: ConstraintDomain,
    first: Batch<F>,
    interpolating: Interpolating<F>,
    coeffs: Triple<F>,
    second: Batch<F>,
    evaluating: Evaluating<F>,
    evals: Triple<F>,
    next: Transform<F>,
    extracting: Extracting<F>,
    h_coeff: Vec<F>,
    result: Vec<F>,
)
    requires
        evals.0@.len() <= evals.1@.len(),
        evals.0@.len() <= evals.2@.len(),
        call_ensures(h::<F>, (p_eval, q_eval, w_eval, &cd), (first, interpolating)),
        call_ensures(
            Interpolating::<F>::interpolated,
            (interpolating, Ok(coeffs)),
            Ok((second, evaluating)),
        ),
        call_ensures(
            Evaluating::<F>::evaluated,
            (evaluating, Ok(evals)),
            Ok((next, extracting)),
        ),
        call_ensures(Extracting::<F>::extracted, (extracting, Ok(h_coeff)), Ok(result)),
    ensures
        next.direction is Inverse,
        next.domain is Constraint2,
        next.pad == 1,
        !next.rearrange,
        next.degree2,
        next.channel is Zero,
        next.shares@.len() == evals.0@.len(),
        forall|i: int|
            0 <= i < next.shares@.len() ==> {
                &&& (#[trigger] next.shares@[i]).model() < F::modulus()
                &&& (next.shares@[i].model() * cd.size) % F::modulus() as int == (
                evals.0@[i].model() * evals.1@[i].model() - evals.2@[i].model())
                    % F::modulus() as int
            },
        result@.len() == if h_coeff@.len() <= 2 * cd.m {
            h_coeff@.len() as int
        } else {
            2 * cd.m
        },
        forall|k: int| 0 <= k < result@.len() ==> #[trigger] result@[k] == h_coeff@[k],
{
    F::field_facts();
    lemma_quotient_elements(next.shares@, evals, 1, cd.size);
}

proof fn lemma_quotient_elements<F: PrimeField>(r: Seq<F>, evals: Triple<F>, t: nat, size: u64)
    requires
        evals.0@.len() <= evals.1@.len(),
        evals.0@.len() <= evals.2@.len(),
        is_quotient(
            models(r),
            products(models(evals.0@), models(evals.1@), models(evals.2@), F::modulus()),
            t,
            size,
            F::modulus(),
        ),
    ensures
        r.len() == evals.0@.len(),
        forall|i: int|
            0 <= i < r.len() ==> {
                &&& (#[trigger] r[i]).model() < F::modulus()
                &&& (r[i].model() * size) % F::modulus() as int == ((evals.0@[i].model()
                    * evals.1@[i].model() - evals.2@[i].model()) * t) % F::modulus() as int
            },
{
    F::field_facts();
    let m = F::modulus() as int;
    let v = products(models(evals.0@), models(evals.1@), models(evals.2@), F::modulus());
    assert(models(r).len() == r.len());
    assert(v.len() == evals.0@.len());
    assert forall|i: int| 0 <= i < r.len() implies {
        &&& (#[trigger] r[i]).model() < F::modulus()
        &&& (r[i].model() * size) % m == ((evals.0@[i].model() * evals.1@[i].model()
            - evals.2@[i].model()) * t) % m
    } by {
        let n = evals.0@[i].model() * evals.1@[i].model() - evals.2@[i].model();
        assert(models(r)[i] < F::modulus());
        lemma_mod_bound(n, m);
        assert(v[i] == n % m);
        lemma_mul_mod_noop_left(n, t as int, m);
    }
}

/// What the extended witness does is what `h` does, but for the mask: the same transforms, in
/// the same order, and a quotient that is multiplied by the mask `t` at every place.
pub proof fn law_witness_follows_h<F: PrimeField>(
    p_eval: Vec<F>,
    q_eval: Vec<F>,
    w_eval: Vec<F>,
    pp: PackedSharingParams,
    cd: ConstraintDomain,
    first: Batch<F>,
    interpolating: WitnessInterpolating<F>,
    coeffs: Triple<F>,
    second: Batch<F>,
    evaluating: WitnessEvaluating<F>,
    evals: Triple<F>,
    masking: WitnessMasking<F>,
    t: F,
    next: Transform<F>,
    extracting: WitnessExtracting<F>,
    h_coeff: Vec<F>,
    result: Vec<F>,
)
    requires
        evals.0@.len() <= evals.1@.len(),
        evals.0@.len() <= evals.2@.len(),
        call_ensures(d_ext_wit::<F>, (p_eval, q_eval, w_eval, &pp, &cd), (first, interpolating)),
        call_ensures(
            WitnessInterpolating::<F>::interpolated,
            (interpolating, Ok(coeffs)),
            Ok((second, evaluating)),
        ),
        call_ensures(
            WitnessEvaluating::<F>::evaluated,
            (evaluating, Ok(evals)),
            Ok(masking),
        ),
        call_ensures(WitnessMasking::<F>::masked, (masking, t), (next, extracting)),
        call_ensures(WitnessExtracting::<F>::extracted, (extracting, Ok(h_coeff)), Ok(result)),
    ensures
        first.p.shares@ == p_eval@ && first.q.shares@ == q_eval@ && first.w.shares@ == w_eval@,
        first.p.channel is Zero && first.q.channel is One && first.w.channel is Two,
        forall|f: Transform<F>|
            f == first.p || f == first.q || f == first.w ==> {
                &&& #[trigger] f.direction is Inverse
                &&& f.domain is Constraint
                &&& f.pad == 2
                &&& f.rearrange
                &&& !f.degree2
            },
        second.p.shares@ == coeffs.0@ && second.q.shares@ == coeffs.1@ && second.w.shares@
            == coeffs.2@,
        second.p.channel is Zero && second.q.channel is One && second.w.channel is Two,
        forall|f: Transform<F>|
            f == second.p || f == second.q || f == second.w ==> {
                &&& #[trigger] f.direction is Forward
                &&& f.domain is Constraint2
                &&& f.pad == 1
                &&& f.rearrange
                &&& !f.degree2
            },
        next.direction is Inverse,
        next.domain is Constraint2,
        next.pad == 1,
        !next.rearrange,
        next.degree2,
        next.channel is Zero,
        next.shares@.len() == evals.0@.len(),
        forall|i: int|
            0 <= i < next.shares@.len() ==> {
                &&& (#[trigger] next.shares@[i]).model() < F::modulus()
                &&& (next.shares@[i].model() * cd.size) % F::modulus() as int == ((
                evals.0@[i].model() * evals.1@[i].model() - evals.2@[i].model()) * t.model())
                    % F::modulus() as int
            },
        result@.len() == if h_coeff@.len() <= 2 * cd.m {
            h_coeff@.len() as int
        } else {
            2 * cd.m
        },
        forall|k: int| 0 <= k < result@.len() ==> #[trigger] result@[k] == h_coeff@[k],
{
    lemma_quotient_elements(next.shares@, evals, t.model(), cd.size);
}

/// The lists that stand for the prepared randomness are three of the length of a sharing of
/// the constraints and eleven of twice that length, all ones; a round drops those that it has
/// used, and leaves the others as they are.
pub proof fn law_preprocessing_is_used_up<F: PrimeField>(
    p_eval: Vec<F>,
    q_eval: Vec<F>,
    w_eval: Vec<F>,
    pp: PackedSharingParams,
    cd: ConstraintDomain,
    first: Batch<F>,
    interpolating: WitnessInterpolating<F>,
    coeffs: Triple<F>,
    second: Batch<F>,
    evaluating: WitnessEvaluating<F>,
    evals: Triple<F>,
    masking: WitnessMasking<F>,
    i: int,
    k: int,
)
    requires
        pp.l > 0,
        call_ensures(d_ext_wit::<F>, (p_eval, q_eval, w_eval, &pp, &cd), (first, interpolating)),
        call_ensures(
            WitnessInterpolating::<F>::interpolated,
            (interpolating, Ok(coeffs)),
            Ok((second, evaluating)),
        ),
        call_ensures(
            WitnessEvaluating::<F>::evaluated,
            (evaluating, Ok(evals)),
            Ok(masking),
        ),
    ensures
        ({
            let single = interpolating.preprocessing().single();
            let double = interpolating.preprocessing().double();
            &&& single.len() == 3
            &&& double.len() == 11
            &&& 0 <= i < 3 ==> single[i]@.len() == cd.m as int / pp.l as int
            &&& 0 <= i < 3 && 0 <= k < single[i]@.len() ==> single[i]@[k].model() == 1
            &&& 0 <= i < 11 ==> double[i]@.len() == 2 * cd.m as int / pp.l as int
            &&& 0 <= i < 11 && 0 <= k < double[i]@.len() ==> double[i]@[k].model() == 1
            &&& evaluating.preprocessing().single().len() == 0
            &&& evaluating.preprocessing().double().len() == 8
            &&& 0 <= i < 8 ==> evaluating.preprocessing().double()[i] == double[i]
            &&& masking.preprocessing().single().len() == 0
            &&& masking.preprocessing().double().len() == 2
            &&& 0 <= i < 2 ==> masking.preprocessing().double()[i] == double[i]
        }),
{
    let single = interpolating.preprocessing().single();
    let double = interpolating.preprocessing().double();
    if 0 <= i < 11 {
        assert(double[i]@.len() == (2 * cd.m / pp.l as int) as nat);
        assert(2 * cd.m / pp.l as int >= 0) by (nonlinear_arith)
            requires
                pp.l > 0,
                cd.m >= 0,
        ;
    }
}

/// Shares that drop from the sky begin with the one that was drawn, and each further one is
/// twice the one before; there are as many as the constraints take, and `p`, `q` and `w` have
/// the same.
pub proof fn law_each_share_is_twice_the_last<F: PrimeField>(
    start: F,
    cd: ConstraintDomain,
    pp: PackedSharingParams,
    batch: Batch<F>,
    interpolating: WitnessInterpolating<F>,
    i: int,
)
    requires
        call_ensures(groth_ext_wit::<F>, (start, &cd, &pp), (batch, interpolating)),
    ensures
        batch.p.shares@.len() == cd.m / pp.l,
        batch.q.shares@ == batch.p.shares@,
        batch.w.shares@ == batch.p.shares@,
        batch.p.shares@.len() > 0 ==> batch.p.shares@[0] == start,
        0 < i < batch.p.shares@.len() ==> batch.p.shares@[i].model() == (2
            * batch.p.shares@[i - 1].model()) % F::modulus(),
        batch.p.channel is Zero && batch.q.channel is One && batch.w.channel is Two,
        forall|t: Transform<F>|
            t == batch.p || t == batch.q || t == batch.w ==> {
                &&& #[trigger] t.direction is Inverse
                &&& t.domain is Constraint
                &&& t.pad == 2
                &&& t.rearrange
                &&& !t.degree2
            },
{
    F::field_facts();
    let shares = batch.p.shares@;
    if 0 < i < shares.len() {
        assert(shares[i].model() == (start.model() * pow2(i as nat)) % F::modulus());
        lemma_doubled(start.model(), (i - 1) as nat, F::modulus());
        if i == 1 {
            assert(shares[0] == start);
            assert(start.model() * pow2(1) == 2 * start.model());
        } else {
            assert(shares[i - 1].model() == (start.model() * pow2((i - 1) as nat)) % F::modulus());
        }
    }
}

/// An error of any round ends the computation, of `h` and of the extended witness, and is its
/// result.
pub proof fn law_errors_end_the_computation<F: PrimeField>(
    cause: MpcNetError,
    interpolating: Interpolating<F>,
    evaluating: Evaluating<F>,
    extracting: Extracting<F>,
    witness_interpolating: WitnessInterpolating<F>,
    witness_evaluating: WitnessEvaluating<F>,
    witness_extracting: WitnessExtracting<F>,
    a: Result<(Batch<F>, Evaluating<F>), MpcNetError>,
    b: Result<(Transform<F>, Extracting<F>), MpcNetError>,
    c: Result<Vec<F>, MpcNetError>,
    d: Result<(Batch<F>, WitnessEvaluating<F>), MpcNetError>,
    e: Result<WitnessMasking<F>, MpcNetError>,
    f: Result<Vec<F>, MpcNetError>,
)
    requires
        call_ensures(Interpolating::<F>::interpolated, (interpolating, Err(cause)), a),
        call_ensures(Evaluating::<F>::evaluated, (evaluating, Err(cause)), b),
        call_ensures(Extracting::<F>::extracted, (extracting, Err(cause)), c),
        call_ensures(WitnessInterpolating::<F>::interpolated, (witness_interpolating, Err(cause)), d),
        call_ensures(WitnessEvaluating::<F>::evaluated, (witness_evaluating, Err(cause)), e),
        call_ensures(WitnessExtracting::<F>::extracted, (witness_extracting, Err(cause)), f),
    ensures
        a is Err && a->Err_0 == cause,
        b is Err && b->Err_0 == cause,
        c is Err && c->Err_0 == cause,
        d is Err && d->Err_0 == cause,
        e is Err && e->Err_0 == cause,
        f is Err && f->Err_0 == cause,
{
}

} // verus!
