use ark_bls12_377::Fr as F;
use ark_ff::{BigInt, FftField, Field as ArkField, PrimeField as ArkPrimeField, Zero};
use ark_poly::{EvaluationDomain, Radix2EvaluationDomain};
use ark_std::UniformRand;
use rand::Rng;
use zksaas::bls12_377::Fr;
use zksaas::deg_red::{deg_red, ReceivedShares};
use zksaas::error::MpcNetError;
use zksaas::ext_wit::{h, ConstraintDomain};
use zksaas::field::PrimeField;
use zksaas::pack::{transpose, PackedSharingParams};
use zksaas::stream_id::MultiplexedStreamID;

const L: usize = 4;

fn to_lib(x: F) -> Fr {
    Fr::from_limbs(x.into_bigint().0).unwrap()
}

fn to_ark(x: Fr) -> F {
    F::from_bigint(BigInt(x.to_limbs())).unwrap()
}

/// Packed secret sharing: the shares are the values on a domain, the secrets, followed
/// by as many random values as make up the degree, those on a coset.
#[derive(Clone, Copy)]
struct Pss {
    params: PackedSharingParams,
    share: Radix2EvaluationDomain<F>,
    secret: Radix2EvaluationDomain<F>,
}

impl Pss {
    fn new(l: usize) -> Pss {
        let params = PackedSharingParams { t: l - 1, l, n: 4 * l };
        Pss {
            params,
            share: Radix2EvaluationDomain::new(params.n).unwrap(),
            secret: Radix2EvaluationDomain::new_coset(2 * l, F::GENERATOR).unwrap(),
        }
    }

    fn pack<R: Rng>(&self, mut secrets: Vec<F>, rng: &mut R) -> Vec<F> {
        while secrets.len() < self.secret.size() {
            secrets.push(F::rand(rng));
        }
        self.share.fft(&self.secret.ifft(&secrets))
    }

    /// The secrets in the shares of these parties, by Lagrange interpolation.
    fn unpack_missing_shares(&self, shares: &[F], parties: &[u32]) -> Vec<F> {
        let at: Vec<F> = parties.iter().map(|p| self.share.element(*p as usize)).collect();
        (0..self.params.l)
            .map(|k| {
                let x = self.secret.element(k);
                let mut value = F::zero();
                for i in 0..at.len() {
                    let mut term = shares[i];
                    for j in 0..at.len() {
                        if i != j {
                            term *= (x - at[j]) * (at[i] - at[j]).inverse().unwrap();
                        }
                    }
                    value += term;
                }
                value
            })
            .collect()
    }

    /// The secrets in all the shares of a sharing of the lower degree.
    fn unpack(&self, shares: &[F]) -> Vec<F> {
        let mut coefficients = self.share.ifft(shares);
        assert!(coefficients[self.secret.size()..].iter().all(|c| c.is_zero()));
        coefficients.truncate(self.secret.size());
        let mut secrets = self.secret.fft(&coefficients);
        secrets.truncate(self.params.l);
        secrets
    }
}

/// A degree reduction of one share for each party, in which the king hears from some.
fn reduce(pss: Pss, x: &[F], in_masks: &[F], out_masks: &[F], heard: &[u32]) -> Vec<F> {
    let sid = MultiplexedStreamID::One;
    let mut shares = Vec::new();
    let mut states = Vec::new();
    for i in 0..pss.params.n {
        let (gather, state) = deg_red(
            vec![to_lib(x[i])],
            vec![to_lib(in_masks[i])],
            vec![to_lib(out_masks[i])],
            &pss.params,
            sid,
        );
        assert_eq!(gather.channel, sid);
        assert_eq!(gather.threshold, pss.params.t);
        assert_eq!(gather.share, vec![to_lib(x[i] + in_masks[i])]);
        if heard.contains(&(i as u32)) {
            shares.push(gather.share);
        }
        states.push(state);
    }
    let unpack = |row: &Vec<Fr>, parties: &Vec<u32>| -> Vec<Fr> {
        let row: Vec<F> = row.iter().map(|x| to_ark(*x)).collect();
        pss.unpack_missing_shares(&row, parties).into_iter().map(to_lib).collect()
    };
    let pack = |secrets: Vec<Fr>| -> Vec<Fr> {
        let secrets = secrets.into_iter().map(to_ark).collect();
        pss.pack(secrets, &mut rand::thread_rng()).into_iter().map(to_lib).collect()
    };

    let mut received = Some(ReceivedShares { shares, parties: heard.to_vec() });
    let mut answer = Vec::new();
    let mut waiting = Vec::new();
    for state in states {
        let is_king = received.is_some();
        let (scatter, state) = state.gathered(Ok(received.take()), unpack, pack).unwrap();
        assert_eq!(scatter.channel, sid);
        assert_eq!(scatter.answer.is_some(), is_king);
        if let Some(rows) = scatter.answer {
            answer = rows;
        }
        waiting.push(state);
    }
    assert_eq!(answer.len(), pss.params.n);
    let results: Vec<Vec<Fr>> = waiting
        .into_iter()
        .zip(answer)
        .map(|(state, share)| state.scattered(Ok(share)).unwrap())
        .collect();
    let columns = transpose(results);
    assert_eq!(columns.len(), 1);
    columns[0].iter().map(|x| to_ark(*x)).collect()
}

fn squares_are_kept(heard: &[u32]) {
    let pp = Pss::new(L);
    let rng = &mut ark_std::test_rng();
    let secrets: [F; L] = UniformRand::rand(rng);
    let secrets = secrets.to_vec();
    let expected: Vec<F> = secrets.iter().map(|x| (*x) * (*x)).collect();

    let shares = pp.pack(secrets, rng);
    let mul_shares: Vec<F> = shares.iter().map(|x| (*x) * (*x)).collect();

    let mut mask_values = Vec::new();
    for _ in 0..pp.params.l {
        mask_values.push(F::rand(rng));
    }
    let in_masks = pp.pack(mask_values.clone(), rng);
    // negate every value of mask_values
    let out_masks = pp.pack(mask_values.into_iter().map(|x| -x).collect(), rng);

    let computed = pp.unpack(&reduce(pp, &mul_shares, &in_masks, &out_masks, heard));

    assert_eq!(computed, expected);
}

#[test]
fn test_deg_red() {
    let everyone: Vec<u32> = (0..16).collect();
    squares_are_kept(&everyone);
}

#[test]
fn degree_reduction_without_one_party() {
    let others: Vec<u32> = (0..16).filter(|id| *id != 5).collect();
    squares_are_kept(&others);
}

fn numbers(from: &[u64]) -> Vec<Fr> {
    from.iter().map(|x| Fr::from_u64(*x)).collect()
}

fn params(n: usize) -> PackedSharingParams {
    PackedSharingParams { t: 1, l: 2, n }
}

fn reversed(row: &Vec<Fr>, parties: &Vec<u32>) -> Vec<Fr> {
    assert_eq!(parties, &vec![0, 2]);
    row.iter().rev().copied().collect()
}

fn with_sum(secrets: Vec<Fr>) -> Vec<Fr> {
    let mut shares = secrets.clone();
    shares.push(secrets[0].minus(secrets[1]));
    shares
}

#[test]
fn king_repacks_column_by_column() {
    let sid = MultiplexedStreamID::Two;
    let (gather, state) =
        deg_red(numbers(&[1, 2]), numbers(&[10, 20]), numbers(&[100, 200]), &params(3), sid);
    assert_eq!(gather.share, numbers(&[11, 22]));
    assert_eq!(gather.threshold, 1);
    let received = ReceivedShares {
        shares: vec![numbers(&[11, 22]), numbers(&[30, 50])],
        parties: vec![0, 2],
    };
    let (scatter, state) = state.gathered(Ok(Some(received)), reversed, with_sum).unwrap();
    let answer = scatter.answer.unwrap();
    assert_eq!(answer, vec![numbers(&[30, 50]), numbers(&[11, 22]), numbers(&[19, 28])]);
    let reply = answer[2].clone();
    assert_eq!(state.scattered(Ok(reply)), Ok(numbers(&[119, 228])));
}

#[test]
fn client_has_no_answer() {
    let sid = MultiplexedStreamID::Zero;
    let (_, state) = deg_red(numbers(&[1]), numbers(&[2]), numbers(&[3]), &params(3), sid);
    let (scatter, state) = state.gathered(Ok(None), reversed, with_sum).unwrap();
    assert!(scatter.answer.is_none());
    assert_eq!(scatter.channel, sid);
    assert_eq!(state.scattered(Ok(numbers(&[4, 5]))), Ok(numbers(&[7])));
}

#[test]
fn network_errors_end_the_reduction() {
    let cause = MpcNetError::Generic("gone".to_string());
    let sid = MultiplexedStreamID::Zero;
    let (_, state) = deg_red(numbers(&[1]), numbers(&[2]), numbers(&[3]), &params(3), sid);
    assert_eq!(state.gathered(Err(cause.clone()), reversed, with_sum).err(), Some(cause.clone()));
    let (_, state) = deg_red(numbers(&[1]), numbers(&[2]), numbers(&[3]), &params(3), sid);
    let (_, state) = state.gathered(Ok(None), reversed, with_sum).unwrap();
    assert_eq!(state.scattered(Err(cause.clone())), Err(cause));
}

#[test]
fn transposed_twice() {
    let matrix = vec![vec![1, 2, 3], vec![4, 5, 6]];
    let once = transpose(matrix.clone());
    assert_eq!(once, vec![vec![1, 4], vec![2, 5], vec![3, 6]]);
    assert_eq!(transpose(once), matrix);
    assert!(transpose(Vec::<Vec<u8>>::new()).is_empty());
    assert!(transpose(vec![Vec::<u8>::new(), Vec::new()]).is_empty());
}

#[test]
fn sharings_add() {
    let pp = Pss::new(L);
    let rng = &mut ark_std::test_rng();
    let s: Vec<F> = (1..5u64).map(F::from).collect();
    let t: Vec<F> = (10..14u64).map(F::from).collect();
    let a = pp.pack(s, rng);
    let b = pp.pack(t, rng);
    let sums: Vec<F> = a.iter().zip(b).map(|(x, y)| *x + y).collect();
    let expected: Vec<F> = [11u64, 13, 15, 17].iter().map(|x| F::from(*x)).collect();
    assert_eq!(pp.unpack(&sums), expected);
}

#[test]
fn quotient_is_shared() {
    let pp = Pss::new(L);
    let rng = &mut ark_std::test_rng();
    let secrets = |from: [u64; L]| -> Vec<F> { from.iter().map(|x| F::from(*x)).collect() };
    let p = pp.pack(secrets([2, 3, 9, 1]), rng);
    let q = pp.pack(secrets([14, 4, 8, 5]), rng);
    let w = pp.pack(secrets([8, 16, 0, 5]), rng);
    let cd = ConstraintDomain { m: L, size: 4 };
    let mut extracted = Vec::new();
    for i in 0..pp.params.n {
        let share = |shares: &[F]| -> Vec<Fr> { vec![to_lib(shares[i])] };
        let (_, state) = h(share(&p), share(&q), share(&w), &cd);
        let (_, state) = state.interpolated(Ok((share(&p), share(&q), share(&w)))).unwrap();
        let (next, _) = state.evaluated(Ok((share(&p), share(&q), share(&w)))).unwrap();
        extracted.push(to_ark(next.shares[0]));
    }
    // 2 * 14 - 8 = 20, 3 * 4 - 16 = -4, 9 * 8 - 0 = 72, 1 * 5 - 5 = 0, each divided by 4
    let expected = vec![F::from(5u64), -F::from(1u64), F::from(18u64), F::zero()];
    let everyone: Vec<u32> = (0..16).collect();
    assert_eq!(pp.unpack_missing_shares(&extracted, &everyone), expected);
    // the degree allows for one missing share
    assert_eq!(pp.unpack_missing_shares(&extracted[1..], &everyone[1..]), expected);
}

#[test]
fn masks_that_do_not_cancel_are_added() {
    let pp = Pss::new(L);
    let rng = &mut ark_std::test_rng();
    let secrets = |from: [u64; L]| -> Vec<F> { from.iter().map(|x| F::from(*x)).collect() };
    let x = pp.pack(secrets([1, 2, 3, 4]), rng);
    let in_masks = pp.pack(secrets([10, 20, 30, 40]), rng);
    let out_masks = pp.pack(secrets([100, 200, 300, 400]), rng);
    let everyone: Vec<u32> = (0..16).collect();
    let computed = pp.unpack(&reduce(pp, &x, &in_masks, &out_masks, &everyone));
    assert_eq!(computed, secrets([111, 222, 333, 444]));
}

#[test]
fn sharings_multiply() {
    let pp = Pss::new(L);
    let rng = &mut ark_std::test_rng();
    let secrets = |from: [u64; L]| -> Vec<F> { from.iter().map(|x| F::from(*x)).collect() };
    let a = pp.pack(secrets([1, 2, 3, 4]), rng);
    let b = pp.pack(secrets([5, 6, 7, 8]), rng);
    let products: Vec<F> = a.iter().zip(b).map(|(x, y)| *x * y).collect();
    let others: Vec<u32> = (1..16).collect();
    let computed = pp.unpack_missing_shares(&products[1..], &others);
    assert_eq!(computed, secrets([5, 12, 21, 32]));
}
