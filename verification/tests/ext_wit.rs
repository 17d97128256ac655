use ark_bn254::Fr as F;
use ark_ff::{BigInt, Field as ArkField, PrimeField as ArkPrimeField, Zero};
use ark_poly::{EvaluationDomain, Radix2EvaluationDomain};
use zksaas::bn254::Fr;
use zksaas::deg_red::{ReceivedShares, Scatter};
use zksaas::dpp::{d_pp_test, Collecting};
use zksaas::error::MpcNetError;
use zksaas::ext_wit::{
    d_ext_wit, groth_ext_wit, h, Batch, ConstraintDomain, Direction, Domain, Transform, Triple,
    WitnessExtracting,
};
use zksaas::field::PrimeField;
use zksaas::pack::PackedSharingParams;
use zksaas::stream_id::MultiplexedStreamID;

fn to_lib(x: F) -> Fr {
    Fr::from_limbs(x.into_bigint().0).unwrap()
}

fn to_ark(x: Fr) -> F {
    F::from_bigint(BigInt(x.to_limbs())).unwrap()
}

fn numbers(from: &[u64]) -> Vec<Fr> {
    from.iter().map(|x| Fr::from_u64(*x)).collect()
}

fn triple(p: &[u64], q: &[u64], w: &[u64]) -> Triple<Fr> {
    (numbers(p), numbers(q), numbers(w))
}

fn cause() -> MpcNetError {
    MpcNetError::Generic("gone".to_string())
}

const PP: PackedSharingParams = PackedSharingParams { t: 1, l: 2, n: 8 };

fn is_interpolation(t: &Transform<Fr>, channel: MultiplexedStreamID) {
    assert_eq!(t.direction, Direction::Inverse);
    assert_eq!(t.domain, Domain::Constraint);
    assert_eq!((t.rearrange, t.pad, t.degree2), (true, 2, false));
    assert_eq!(t.channel, channel);
}

fn is_evaluation(t: &Transform<Fr>, channel: MultiplexedStreamID) {
    assert_eq!(t.direction, Direction::Forward);
    assert_eq!(t.domain, Domain::Constraint2);
    assert_eq!((t.rearrange, t.pad, t.degree2), (true, 1, false));
    assert_eq!(t.channel, channel);
}

fn is_extraction(t: &Transform<Fr>) {
    assert_eq!(t.direction, Direction::Inverse);
    assert_eq!(t.domain, Domain::Constraint2);
    assert_eq!((t.rearrange, t.pad, t.degree2), (false, 1, true));
    assert_eq!(t.channel, MultiplexedStreamID::Zero);
}

fn shares(batch: Batch<Fr>, each: fn(&Transform<Fr>, MultiplexedStreamID)) -> Triple<Fr> {
    each(&batch.p, MultiplexedStreamID::Zero);
    each(&batch.q, MultiplexedStreamID::One);
    each(&batch.w, MultiplexedStreamID::Two);
    (batch.p.shares, batch.q.shares, batch.w.shares)
}

#[test]
fn quotient_of_given_evaluations() {
    let cd = ConstraintDomain { m: 1, size: 4 };
    let (p, q, w) = triple(&[1], &[2], &[3]);
    let (batch, state) = h(p, q, w, &cd);
    assert_eq!(shares(batch, is_interpolation), triple(&[1], &[2], &[3]));
    let (batch, state) = state.interpolated(Ok(triple(&[4, 5], &[6, 7], &[8, 9]))).unwrap();
    assert_eq!(shares(batch, is_evaluation), triple(&[4, 5], &[6, 7], &[8, 9]));
    // 2 * 14 - 8 = 20, 3 * 4 - 16 = -4, 9 * 8 - 0 = 72, each divided by 4
    let evals = triple(&[2, 3, 9], &[14, 4, 8], &[8, 16, 0]);
    let (next, state) = state.evaluated(Ok(evals)).unwrap();
    is_extraction(&next);
    let minus_one = Fr::zero().minus(Fr::one());
    assert_eq!(next.shares, vec![Fr::from_u64(5), minus_one, Fr::from_u64(18)]);
    let h_coeff = state.extracted(Ok(numbers(&[1, 2, 3, 4]))).unwrap();
    assert_eq!(h_coeff, numbers(&[1, 2]));
}

#[test]
fn odd_quotient() {
    let cd = ConstraintDomain { m: 1, size: 3 };
    let (_, state) = h(Vec::new(), Vec::new(), Vec::<Fr>::new(), &cd);
    let (_, state) = state.interpolated(Ok(triple(&[], &[], &[]))).unwrap();
    let (next, _) = state.evaluated(Ok(triple(&[5], &[2], &[0]))).unwrap();
    assert_eq!(next.shares.len(), 1);
    assert_eq!(next.shares[0].times(Fr::from_u64(3)), Fr::from_u64(10));
    assert_ne!(next.shares[0], Fr::from_u64(10));
}

#[test]
fn few_coefficients_are_all_kept() {
    let cd = ConstraintDomain { m: 5, size: 8 };
    let (_, state) = h(Vec::new(), Vec::new(), Vec::<Fr>::new(), &cd);
    let (_, state) = state.interpolated(Ok(triple(&[], &[], &[]))).unwrap();
    let (_, state) = state.evaluated(Ok(triple(&[], &[], &[]))).unwrap();
    assert_eq!(state.extracted(Ok(numbers(&[1, 2, 3]))), Ok(numbers(&[1, 2, 3])));
}

#[test]
fn network_errors_end_the_computation_of_h() {
    let cd = ConstraintDomain { m: 1, size: 4 };
    let begin = || h(numbers(&[1]), numbers(&[1]), numbers(&[1]), &cd).1;
    assert_eq!(begin().interpolated(Err(cause())).err(), Some(cause()));
    let evaluating = || begin().interpolated(Ok(triple(&[], &[], &[]))).unwrap().1;
    assert_eq!(evaluating().evaluated(Err(cause())).err(), Some(cause()));
    let extracting = || evaluating().evaluated(Ok(triple(&[], &[], &[]))).unwrap().1;
    assert_eq!(extracting().extracted(Err(cause())), Err(cause()));
}

/// A transform of one list of values, without sharing.
fn transform(t: Transform<Fr>, m: usize) -> Vec<Fr> {
    let size = match t.domain {
        Domain::Constraint => m,
        Domain::Constraint2 => 2 * m,
    };
    let domain = Radix2EvaluationDomain::<F>::new(size).unwrap();
    let values: Vec<F> = t.shares.into_iter().map(to_ark).collect();
    let mut values = match t.direction {
        Direction::Forward => domain.fft(&values),
        Direction::Inverse => domain.ifft(&values),
    };
    values.resize(t.pad * values.len(), F::zero());
    values.into_iter().map(to_lib).collect()
}

fn transform_all(batch: Batch<Fr>, m: usize) -> Triple<Fr> {
    (transform(batch.p, m), transform(batch.q, m), transform(batch.w, m))
}

#[test]
fn h_is_the_polynomial_over_the_domain_size() {
    const M: usize = 4;
    let cd = ConstraintDomain { m: M, size: M as u64 };
    let (batch, state) =
        h(numbers(&[3, 1, 4, 1]), numbers(&[5, 9, 2, 6]), numbers(&[15, 9, 8, 6]), &cd);
    let (batch, state) = state.interpolated(Ok(transform_all(batch, M))).unwrap();
    let (next, state) = state.evaluated(Ok(transform_all(batch, M))).unwrap();
    let h_coeff = state.extracted(Ok(transform(next, M))).unwrap();
    assert_eq!(h_coeff.len(), 2 * M);

    // the product of the polynomials, coefficient by coefficient
    let domain = Radix2EvaluationDomain::<F>::new(M).unwrap();
    let coefficients = |evals: [u64; M]| -> Vec<F> { domain.ifft(&evals.map(F::from)) };
    let p = coefficients([3, 1, 4, 1]);
    let q = coefficients([5, 9, 2, 6]);
    let w = coefficients([15, 9, 8, 6]);
    let mut expected = vec![F::zero(); 2 * M];
    for i in 0..M {
        for j in 0..M {
            expected[i + j] += p[i] * q[j];
        }
        expected[i] -= w[i];
    }
    let size = F::from(M as u64);
    let computed: Vec<F> = h_coeff.into_iter().map(|c| to_ark(c) * size).collect();
    assert_eq!(computed, expected);
    assert_ne!(computed, vec![F::zero(); 2 * M]);
    // it vanishes on the domain
    for i in 0..M {
        let x = domain.element(i);
        let value: F = computed.iter().enumerate().map(|(k, c)| *c * x.pow([k as u64])).sum();
        assert!(value.is_zero());
    }
}

/// The extended witness of these evaluations, up to the extraction.
fn masked(evals: Triple<Fr>, t: Fr, cd: &ConstraintDomain) -> (Transform<Fr>, WitnessExtracting<Fr>) {
    let (batch, state) = d_ext_wit(numbers(&[1]), numbers(&[2]), numbers(&[3]), &PP, cd);
    assert_eq!(shares(batch, is_interpolation), triple(&[1], &[2], &[3]));
    let (batch, state) = state.interpolated(Ok(triple(&[4], &[5], &[6]))).unwrap();
    assert_eq!(shares(batch, is_evaluation), triple(&[4], &[5], &[6]));
    state.evaluated(Ok(evals)).unwrap().masked(t)
}

#[test]
fn mask_multiplies() {
    let cd = ConstraintDomain { m: 2, size: 4 };
    let evals = || triple(&[2, 9], &[14, 8], &[8, 0]);
    let (next, state) = masked(evals(), Fr::from_u64(3), &cd);
    is_extraction(&next);
    assert_eq!(next.shares, numbers(&[15, 54]));
    assert_eq!(state.extracted(Ok(numbers(&[1, 2, 3, 4, 5]))), Ok(numbers(&[1, 2, 3, 4])));

    let (unmasked, _) = masked(evals(), Fr::one(), &cd);
    assert_eq!(unmasked.shares, numbers(&[5, 18]));
    let (_, state) = h(Vec::new(), Vec::new(), Vec::<Fr>::new(), &cd);
    let (_, state) = state.interpolated(Ok(triple(&[], &[], &[]))).unwrap();
    let (of_h, _) = state.evaluated(Ok(evals())).unwrap();
    assert_eq!(unmasked.shares, of_h.shares);
}

#[test]
fn network_errors_end_the_extended_witness() {
    let cd = ConstraintDomain { m: 2, size: 4 };
    let begin = || d_ext_wit(numbers(&[1]), numbers(&[1]), numbers(&[1]), &PP, &cd).1;
    assert_eq!(begin().interpolated(Err(cause())).err(), Some(cause()));
    let evaluating = || begin().interpolated(Ok(triple(&[], &[], &[]))).unwrap().1;
    assert_eq!(evaluating().evaluated(Err(cause())).err(), Some(cause()));
    let extracting = || masked(triple(&[], &[], &[]), Fr::one(), &cd).1;
    assert_eq!(extracting().extracted(Err(cause())), Err(cause()));
}

#[test]
fn shares_from_the_sky_double() {
    let cd = ConstraintDomain { m: 10, size: 16 };
    let (batch, _) = groth_ext_wit(Fr::from_u64(3), &cd, &PP);
    let (p, q, w) = shares(batch, is_interpolation);
    assert_eq!(p, numbers(&[3, 6, 12, 24, 48]));
    assert_eq!(q, p);
    assert_eq!(w, p);

    let none = ConstraintDomain { m: 1, size: 1 };
    let (batch, _) = groth_ext_wit(Fr::from_u64(3), &none, &PP);
    assert!(batch.p.shares.is_empty());
}

#[test]
fn h_is_symmetric_and_scales() {
    const M: usize = 4;
    let cd = ConstraintDomain { m: M, size: M as u64 };
    let of = |p: &[u64], q: &[u64], w: &[u64]| -> Vec<Fr> {
        let (batch, state) = h(numbers(p), numbers(q), numbers(w), &cd);
        let (batch, state) = state.interpolated(Ok(transform_all(batch, M))).unwrap();
        let (next, state) = state.evaluated(Ok(transform_all(batch, M))).unwrap();
        state.extracted(Ok(transform(next, M))).unwrap()
    };
    let once = of(&[3, 1, 4, 1], &[5, 9, 2, 6], &[7, 0, 8, 2]);
    assert_eq!(of(&[5, 9, 2, 6], &[3, 1, 4, 1], &[7, 0, 8, 2]), once);
    let scaled: Vec<Fr> = once.iter().map(|x| x.times(Fr::from_u64(10))).collect();
    assert_eq!(of(&[30, 10, 40, 10], &[5, 9, 2, 6], &[70, 0, 80, 20]), scaled);
    assert_ne!(of(&[7, 0, 8, 2], &[5, 9, 2, 6], &[3, 1, 4, 1]), once);
}

fn trial(is_king: bool, size: usize) -> (Scatter<Fr>, Collecting) {
    let pairs = |x: &Vec<Fr>| -> Vec<Vec<Fr>> { x.chunks(2).map(|c| c.to_vec()).collect() };
    let (deal, state) = d_pp_test(is_king, size, &PP, pairs);
    assert_eq!(deal.channel, MultiplexedStreamID::One);
    let (quotients, state) = state.dealt(numbers(&[7, 8]));
    assert_eq!(quotients.num, numbers(&[7, 8]));
    assert_eq!(quotients.den, numbers(&[7, 8]));
    assert_eq!(quotients.channel, MultiplexedStreamID::One);
    let (gather, state) = state.multiplied(numbers(&[9]));
    assert_eq!(gather.share, numbers(&[9]));
    assert_eq!(gather.channel, MultiplexedStreamID::One);
    assert_eq!(gather.threshold, PP.t);
    (deal, state)
}

#[test]
fn king_deals_the_numbers_from_one() {
    let (deal, _) = trial(true, 6);
    assert_eq!(deal.answer.unwrap(), vec![numbers(&[1, 3, 5]), numbers(&[2, 4, 6])]);
    let (deal, _) = trial(false, 6);
    assert!(deal.answer.is_none());
}

#[test]
fn partial_products_must_be_ones() {
    let unpack = |row: Vec<Fr>| -> Vec<Fr> { vec![row[0].minus(row[1]), row[1]] };
    let holds = |shares: Vec<Vec<Fr>>, size: usize| -> Option<bool> {
        let parties = (0..shares.len() as u32).collect();
        trial(true, size).1.gathered(Some(ReceivedShares { shares, parties }), unpack)
    };
    let good = || vec![numbers(&[2, 2]), numbers(&[1, 1])];
    assert_eq!(holds(good(), 4), Some(true));
    assert_eq!(holds(good(), 2), Some(false));
    assert_eq!(holds(vec![numbers(&[2, 3]), numbers(&[1, 1])], 4), Some(false));
    assert_eq!(holds(vec![numbers(&[2, 3]), numbers(&[1, 2])], 4), Some(false));
    assert_eq!(holds(Vec::new(), 0), Some(true));
    assert_eq!(trial(false, 4).1.gathered(None, unpack), None);
}
