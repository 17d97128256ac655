//! What the extended witness is: the coefficients of a polynomial.

use crate::ext_wit::{
    d_ext_wit, h, law_quotient_of_h, law_transforms_of_h, law_witness_follows_h, Batch,
    ConstraintDomain, Direction, Domain, Evaluating, Extracting, Interpolating, Transform, Triple,
    WitnessEvaluating, WitnessExtracting, WitnessInterpolating, WitnessMasking,
};
use crate::field::{DomainCoeff, PrimeField};
use crate::pack::PackedSharingParams;
use crate::sharing::{
    add_poly, eval, lemma_eval_add, lemma_eval_pad, lemma_eval_quotient, lemma_eval_scale,
    lemma_quotient_residue, mul_poly, pad_poly, quotient_poly, scale_poly,
};
use vstd::arithmetic::div_mod::{
    lemma_mod_bound, lemma_mod_equivalence, lemma_mul_mod_noop_left, lemma_mul_mod_noop_right,
    lemma_small_mod, lemma_sub_mod_noop,
};
use vstd::arithmetic::mul::lemma_mul_is_commutative;
use vstd::prelude::*;

verus! {

/// The points of the two constraint domains.
pub struct Domains {
    pub first: Seq<int>,
    pub second: Seq<int>,
}

/// The points of one of the domains.
pub open spec fn points_in(domains: Domains, domain: Domain) -> Seq<int> {
    match domain {
        Domain::Constraint => domains.first,
        Domain::Constraint2 => domains.second,
    }
}

/// The polynomial whose coefficients are the residues of these elements.
pub open spec fn polynomial<F: PrimeField>(elements: Seq<F>) -> Seq<int> {
    Seq::new(elements.len(), |k: int| elements[k].model() as int)
}

/// Whether `out` is what a transform makes of unshared values: from a value at every point
/// of its domain to the coefficients of a polynomial that has these values, or from
/// coefficients to the values at the points; as many as there are points, and `pad` times
/// that with zeros behind.
pub open spec fn transformed<F: PrimeField>(t: Transform<F>, domains: Domains, out: Seq<F>) -> bool {
    let at = points_in(domains, t.domain);
    &&& out.len() == t.pad * at.len()
    &&& forall|k: int| at.len() <= k < out.len() ==> (#[trigger] out[k]).model() == 0
    &&& forall|i: int|
        0 <= i < at.len() ==> match t.direction {
            Direction::Inverse => i < t.shares@.len() ==> eval(polynomial(out), #[trigger] at[i])
                % F::modulus() as int == t.shares@[i].model(),
            Direction::Forward => i < out.len() ==> out[i].model() == eval(
                polynomial(t.shares@),
                at[i],
            ) % F::modulus() as int,
        }
}

/// Whether one can divide by `d` modulo `m`.
pub open spec fn invertible(d: int, m: int) -> bool {
    exists|inverse: int| #[trigger] (d * inverse) % m == 1
}

/// Whether one can divide by the difference of any two of these points.
pub open spec fn apart(at: Seq<int>, m: int) -> bool {
    forall|i: int, j: int|
        0 <= i < j < at.len() ==> invertible(#[trigger] at[j] - #[trigger] at[i], m)
}

/// The polynomial that is left when `c` less its value at `a` is divided by `x - a`.
spec fn divided(c: Seq<int>, a: int) -> Seq<int> {
    Seq::new((c.len() - 1) as nat, |k: int| eval(c.skip(k + 1), a))
}

proof fn lemma_divided(c: Seq<int>, a: int, x: int)
    requires
        c.len() > 0,
    ensures
        eval(c, x) == (x - a) * eval(divided(c, a), x) + eval(c, a),
    decreases c.len(),
{
    let rest = c.skip(1);
    let d = divided(c, a);
    if c.len() == 1 {
        assert(eval(rest, x) == 0 && eval(rest, a) == 0);
        assert(d.len() == 0);
        assert(eval(d, x) == 0);
        assert(x * 0 == 0 && a * 0 == 0 && (x - a) * 0 == 0);
    } else {
        lemma_divided(rest, a, x);
        assert forall|k: int| 0 <= k < rest.len() - 1 implies d.skip(1)[k] == #[trigger] divided(
            rest,
            a,
        )[k] by {
            assert(c.skip(k + 2) =~= rest.skip(k + 1));
        }
        assert(d.skip(1) =~= divided(rest, a));
        let e = eval(rest, a);
        let s = eval(divided(rest, a), x);
        assert(d[0] == e);
        assert(eval(d, x) == e + x * s);
        assert(c[0] + x * ((x - a) * s + e) == (x - a) * (e + x * s) + (c[0] + a * e))
            by (nonlinear_arith);
    }
}

proof fn lemma_multiple_less_multiple(x: int, a: int, y: int, m: int)
    requires
        m > 0,
        x % m == 0,
        y % m == 0,
    ensures
        (x - a * y) % m == 0,
{
    lemma_mul_mod_noop_right(a, y, m);
    assert(a * 0 == 0);
    lemma_sub_mod_noop(x, a * y, m);
    lemma_small_mod(0, m as nat);
}

/// A polynomial that is zero at as many points as it has coefficients has none but zeros.
proof fn lemma_no_more_roots(c: Seq<int>, at: Seq<int>, m: int)
    requires
        m > 1,
        c.len() == at.len(),
        apart(at, m),
        forall|i: int| 0 <= i < at.len() ==> eval(c, #[trigger] at[i]) % m == 0,
    ensures
        forall|k: int| 0 <= k < c.len() ==> #[trigger] c[k] % m == 0,
    decreases c.len(),
{
    if c.len() > 0 {
        let a = at[0];
        let g = divided(c, a);
        let others = at.skip(1);
        assert forall|i: int| 0 <= i < others.len() implies eval(g, #[trigger] others[i]) % m == 0 by {
            let x = others[i];
            assert(x == at[i + 1]);
            lemma_divided(c, a, x);
            lemma_multiple_less_multiple(eval(c, x), 1, eval(c, a), m);
            let d = x - a;
            let v = eval(g, x);
            assert(invertible(at[i + 1] - at[0], m));
            let inverse = choose|inverse: int| #[trigger] (d * inverse) % m == 1;
            assert((d * v) % m == 0);
            lemma_mul_mod_noop_left(d * v, inverse, m);
            assert(0 * inverse == 0);
            assert((d * v) * inverse == (d * inverse) * v) by (nonlinear_arith);
            lemma_mul_mod_noop_left(d * inverse, v, m);
            assert(1 * v == v);
        }
        assert forall|i: int, j: int| 0 <= i < j < others.len() implies invertible(
            #[trigger] others[j] - #[trigger] others[i],
            m,
        ) by {
            assert(invertible(at[j + 1] - at[i + 1], m));
        }
        lemma_no_more_roots(g, others, m);
        assert forall|k: int| 0 <= k < c.len() implies #[trigger] c[k] % m == 0 by {
            let rest = c.skip(k);
            let next = c.skip(k + 1);
            assert(rest.skip(1) =~= next);
            assert(eval(rest, a) == c[k] + a * eval(next, a));
            assert(eval(rest, a) % m == 0) by {
                if k == 0 {
                    assert(rest =~= c);
                    assert(eval(c, at[0]) % m == 0);
                } else {
                    assert(g[k - 1] % m == 0);
                }
            }
            assert(eval(next, a) % m == 0) by {
                if k < c.len() - 1 {
                    assert(g[k] % m == 0);
                } else {
                    assert(eval(next, a) == 0);
                    lemma_small_mod(0, m as nat);
                }
            }
            lemma_multiple_less_multiple(eval(rest, a), a, eval(next, a), m);
        }
    }
}

/// A polynomial is known by its values: two with as many coefficients as there are points,
/// and the same values there, have the same coefficients.
pub proof fn law_values_tell_the_polynomial(a: Seq<int>, b: Seq<int>, at: Seq<int>, m: int)
    requires
        m > 1,
        a.len() == at.len(),
        b.len() == at.len(),
        apart(at, m),
        forall|i: int| 0 <= i < at.len() ==> eval(a, #[trigger] at[i]) % m == eval(b, at[i]) % m,
    ensures
        forall|k: int| 0 <= k < a.len() ==> #[trigger] a[k] % m == b[k] % m,
{
    let c = add_poly(a, scale_poly(b, -1));
    assert forall|i: int| 0 <= i < at.len() implies eval(c, #[trigger] at[i]) % m == 0 by {
        lemma_eval_scale(b, -1, at[i]);
        lemma_eval_add(a, scale_poly(b, -1), at[i]);
        lemma_mod_equivalence(eval(a, at[i]), eval(b, at[i]), m);
    }
    lemma_no_more_roots(c, at, m);
    assert forall|k: int| 0 <= k < a.len() implies #[trigger] a[k] % m == b[k] % m by {
        assert(c[k] % m == 0);
        lemma_mod_equivalence(a[k], b[k], m);
    }
}

proof fn lemma_padded<F: PrimeField>(elements: Seq<F>, len: nat)
    requires
        elements.len() == 2 * len,
        forall|k: int| len <= k < elements.len() ==> (#[trigger] elements[k]).model() == 0,
    ensures
        polynomial(elements) == pad_poly(polynomial(elements.take(len as int)), 2 * len),
        forall|x: int| #[trigger]
            eval(polynomial(elements), x) == eval(polynomial(elements.take(len as int)), x),
{
    let low = polynomial(elements.take(len as int));
    assert(polynomial(elements) =~= pad_poly(low, 2 * len));
    assert forall|x: int| #[trigger] eval(polynomial(elements), x) == eval(low, x) by {
        lemma_eval_pad(low, 2 * len, x);
    }
}

proof fn lemma_quotient_coefficients<F: PrimeField>(
    domains: Domains,
    coeffs: Triple<F>,
    evals: Triple<F>,
    quotient: Seq<F>,
    c: Seq<F>,
    t: int,
    size: u64,
)
    requires
        F::modulus() > 1,
        domains.first.len() > 0,
        domains.second.len() == 2 * domains.first.len(),
        apart(domains.second, F::modulus() as int),
        coeffs.0@.len() == domains.second.len(),
        coeffs.1@.len() == domains.second.len(),
        coeffs.2@.len() == domains.second.len(),
        forall|k: int|
            domains.first.len() <= k < domains.second.len() ==> (#[trigger] coeffs.0@[k]).model()
                == 0,
        forall|k: int|
            domains.first.len() <= k < domains.second.len() ==> (#[trigger] coeffs.1@[k]).model()
                == 0,
        forall|k: int|
            domains.first.len() <= k < domains.second.len() ==> (#[trigger] coeffs.2@[k]).model()
                == 0,
        evals.0@.len() == domains.second.len(),
        evals.1@.len() == domains.second.len(),
        evals.2@.len() == domains.second.len(),
        forall|i: int|
            0 <= i < domains.second.len() ==> {
                let m = F::modulus() as int;
                let y = #[trigger] domains.second[i];
                &&& evals.0@[i].model() == eval(polynomial(coeffs.0@), y) % m
                &&& evals.1@[i].model() == eval(polynomial(coeffs.1@), y) % m
                &&& evals.2@[i].model() == eval(polynomial(coeffs.2@), y) % m
            },
        quotient.len() == domains.second.len(),
        forall|i: int|
            0 <= i < quotient.len() ==> ((#[trigger] quotient[i]).model() * size)
                % F::modulus() as int == ((evals.0@[i].model() * evals.1@[i].model()
                - evals.2@[i].model()) * t) % F::modulus() as int,
        c.len() == domains.second.len(),
        forall|i: int|
            0 <= i < c.len() ==> eval(polynomial(c), #[trigger] domains.second[i])
                % F::modulus() as int == quotient[i].model(),
    ensures
        ({
            let m = F::modulus() as int;
            let n = domains.first.len() as int;
            let p = polynomial(coeffs.0@.take(n));
            let q = polynomial(coeffs.1@.take(n));
            let w = polynomial(coeffs.2@.take(n));
            let pq = pad_poly(mul_poly(p, q), c.len());
            forall|k: int|
                0 <= k < c.len() ==> ((#[trigger] c[k]).model() * size) % m == (t * (pq[k]
                    - pad_poly(w, c.len())[k])) % m
        }),
{
    let m = F::modulus() as int;
    let n = domains.first.len() as int;
    let p = polynomial(coeffs.0@.take(n));
    let q = polynomial(coeffs.1@.take(n));
    let w = polynomial(coeffs.2@.take(n));
    lemma_padded(coeffs.0@, n as nat);
    lemma_padded(coeffs.1@, n as nat);
    lemma_padded(coeffs.2@, n as nat);
    let len = c.len();
    let left = scale_poly(polynomial(c), size as int);
    let short = quotient_poly(p, q, w, t);
    lemma_eval_quotient(p, q, w, t, 0);
    let right = pad_poly(short, len);
    assert forall|i: int| 0 <= i < len implies eval(left, #[trigger] domains.second[i]) % m == eval(
        right,
        domains.second[i],
    ) % m by {
        let y = domains.second[i];
        let e = eval(polynomial(c), y);
        lemma_eval_scale(polynomial(c), size as int, y);
        lemma_mul_mod_noop_right(size as int, e, m);
        assert(quotient[i].model() == e % m);
        lemma_mul_is_commutative(size as int, e % m);
        lemma_eval_quotient(p, q, w, t, y);
        lemma_eval_pad(short, len, y);
        lemma_quotient_residue(eval(p, y), eval(q, y), eval(w, y), t, m);
        lemma_mod_bound(eval(p, y), m);
        lemma_mod_bound(eval(q, y), m);
        lemma_mod_bound(eval(w, y), m);
        let v = evals.0@[i].model() * evals.1@[i].model() - evals.2@[i].model();
        assert(evals.0@[i].model() == eval(p, y) % m);
        assert(evals.1@[i].model() == eval(q, y) % m);
        assert(evals.2@[i].model() == eval(w, y) % m);
        lemma_mul_mod_noop_left(v, t, m);
        assert((quotient[i].model() * size) % m == (v * t) % m);
    }
    law_values_tell_the_polynomial(left, right, domains.second, m);
    let pq = mul_poly(p, q);
    assert forall|k: int| 0 <= k < len implies ((#[trigger] c[k]).model() * size) % m == (t * (
    pad_poly(pq, len)[k] - pad_poly(w, len)[k])) % m by {
        assert(left[k] % m == right[k] % m);
        lemma_mul_is_commutative(size as int, c[k].model() as int);
        if k < pq.len() {
            let minus_w = scale_poly(pad_poly(w, pq.len()), -1);
            assert(short[k] == t * (pq[k] + minus_w[k]));
            assert(minus_w[k] == -1 * pad_poly(w, pq.len())[k]);
        } else {
            assert(k >= w.len());
            assert(right[k] == 0);
            assert(t * 0 == 0);
        }
    }
}

/// `h` is the polynomial `(P * Q - W)` divided by the size of the domain, where `P`, `Q` and
/// `W` are the polynomials with a coefficient for each constraint that have the given
/// evaluations on the first domain. Let the transforms be done as they are asked for, on
/// values that are not shared, and the second domain have twice the points of the first.
/// Then each transform is asked for as many values as its domain has points, and the
/// coefficients in the end are those of that polynomial, all of them.
pub proof fn law_h_is_the_quotient<F: PrimeField>(
    domains: Domains,
    p_eval: Vec<F>,
    q_eval: Vec<F>,
    w_eval: Vec<F>,
    cd: ConstraintDomain,
    first: Batch<F>,
    interpolating: Interpolating<F>,
    coeffs: Triple<F>,
    second: Batch<F>,
    evaluating: Evaluating<F>,
    evals: Triple<F>,
    next: Transform<F>,
    extracting: Extracting<F>,
    h_coeff: Vec<F>,
    result: Vec<F>,
)
    requires
        domains.first.len() > 0,
        domains.second.len() == 2 * domains.first.len(),
        apart(domains.second, F::modulus() as int),
        cd.m == domains.first.len(),
        p_eval@.len() == domains.first.len(),
        q_eval@.len() == domains.first.len(),
        w_eval@.len() == domains.first.len(),
        call_ensures(h::<F>, (p_eval, q_eval, w_eval, &cd), (first, interpolating)),
        transformed(first.p, domains, coeffs.0@),
        transformed(first.q, domains, coeffs.1@),
        transformed(first.w, domains, coeffs.2@),
        call_ensures(
            Interpolating::<F>::interpolated,
            (interpolating, Ok(coeffs)),
            Ok((second, evaluating)),
        ),
        transformed(second.p, domains, evals.0@),
        transformed(second.q, domains, evals.1@),
        transformed(second.w, domains, evals.2@),
        call_ensures(
            Evaluating::<F>::evaluated,
            (evaluating, Ok(evals)),
            Ok((next, extracting)),
        ),
        transformed(next, domains, h_coeff@),
        call_ensures(Extracting::<F>::extracted, (extracting, Ok(h_coeff)), Ok(result)),
    ensures
        second.p.shares@.len() == domains.second.len(),
        second.q.shares@.len() == domains.second.len(),
        second.w.shares@.len() == domains.second.len(),
        next.shares@.len() == domains.second.len(),
        result@.len() == domains.second.len(),
        ({
            let m = F::modulus() as int;
            let n = domains.first.len() as int;
            let p = polynomial(coeffs.0@.take(n));
            let q = polynomial(coeffs.1@.take(n));
            let w = polynomial(coeffs.2@.take(n));
            let pq = pad_poly(mul_poly(p, q), (2 * n) as nat);
            &&& forall|i: int|
                0 <= i < n ==> {
                    let x = #[trigger] domains.first[i];
                    &&& eval(p, x) % m == p_eval@[i].model()
                    &&& eval(q, x) % m == q_eval@[i].model()
                    &&& eval(w, x) % m == w_eval@[i].model()
                }
            &&& forall|k: int|
                0 <= k < 2 * n ==> ((#[trigger] result@[k]).model() * cd.size) % m == (pq[k]
                    - pad_poly(w, (2 * n) as nat)[k]) % m
        }),
{
    F::field_facts();
    let n = domains.first.len();
    law_transforms_of_h(
        p_eval,
        q_eval,
        w_eval,
        cd,
        first,
        interpolating,
        coeffs,
        second,
        evaluating,
    );
    assert(first.p.direction is Inverse && first.q.direction is Inverse
        && first.w.direction is Inverse);
    assert(second.p.direction is Forward && second.q.direction is Forward
        && second.w.direction is Forward);
    law_quotient_of_h(
        p_eval,
        q_eval,
        w_eval,
        cd,
        first,
        interpolating,
        coeffs,
        second,
        evaluating,
        evals,
        next,
        extracting,
        h_coeff,
        result,
    );
    lemma_padded(coeffs.0@, n);
    lemma_padded(coeffs.1@, n);
    lemma_padded(coeffs.2@, n);
    assert(result@ =~= h_coeff@);
    lemma_quotient_coefficients(domains, coeffs, evals, next.shares@, h_coeff@, 1, cd.size);
}

/// The extended witness is the polynomial `(P * Q - W)` times the mask, divided by the size of
/// the domain: what [`law_h_is_the_quotient`] says of `h`, with every coefficient multiplied
/// by the mask `t`.
pub proof fn law_witness_is_the_masked_quotient<F: PrimeField>(
    domains: Domains,
    p_eval: Vec<F>,
    q_eval: Vec<F>,
    w_eval: Vec<F>,
    pp: PackedSharingParams,
    cd: ConstraintDomain,
    first: Batch<F>,
    interpolating: WitnessInterpolating<F>,
    coeffs: Triple<F>,
    second: Batch<F>,
    evaluating: WitnessEvaluating<F>,
    evals: Triple<F>,
    masking: WitnessMasking<F>,
    t: F,
    next: Transform<F>,
    extracting: WitnessExtracting<F>,
    h_coeff: Vec<F>,
    result: Vec<F>,
)
    requires
        domains.first.len() > 0,
        domains.second.len() == 2 * domains.first.len(),
        apart(domains.second, F::modulus() as int),
        cd.m == domains.first.len(),
        p_eval@.len() == domains.first.len(),
        q_eval@.len() == domains.first.len(),
        w_eval@.len() == domains.first.len(),
        call_ensures(d_ext_wit::<F>, (p_eval, q_eval, w_eval, &pp, &cd), (first, interpolating)),
        transformed(first.p, domains, coeffs.0@),
        transformed(first.q, domains, coeffs.1@),
        transformed(first.w, domains, coeffs.2@),
        call_ensures(
            WitnessInterpolating::<F>::interpolated,
            (interpolating, Ok(coeffs)),
            Ok((second, evaluating)),
        ),
        transformed(second.p, domains, evals.0@),
        transformed(second.q, domains, evals.1@),
        transformed(second.w, domains, evals.2@),
        call_ensures(
            WitnessEvaluating::<F>::evaluated,
            (evaluating, Ok(evals)),
            Ok(masking),
        ),
        call_ensures(WitnessMasking::<F>::masked, (masking, t), (next, extracting)),
        transformed(next, domains, h_coeff@),
        call_ensures(WitnessExtracting::<F>::extracted, (extracting, Ok(h_coeff)), Ok(result)),
    ensures
        second.p.shares@.len() == domains.second.len(),
        second.q.shares@.len() == domains.second.len(),
        second.w.shares@.len() == domains.second.len(),
        next.shares@.len() == domains.second.len(),
        result@.len() == domains.second.len(),
        ({
            let m = F::modulus() as int;
            let n = domains.first.len() as int;
            let p = polynomial(coeffs.0@.take(n));
            let q = polynomial(coeffs.1@.take(n));
            let w = polynomial(coeffs.2@.take(n));
            let pq = pad_poly(mul_poly(p, q), (2 * n) as nat);
            &&& forall|i: int|
                0 <= i < n ==> {
                    let x = #[trigger] domains.first[i];
                    &&& eval(p, x) % m == p_eval@[i].model()
                    &&& eval(q, x) % m == q_eval@[i].model()
                    &&& eval(w, x) % m == w_eval@[i].model()
                }
            &&& forall|k: int|
                0 <= k < 2 * n ==> ((#[trigger] result@[k]).model() * cd.size) % m == (t.model() * (
                pq[k] - pad_poly(w, (2 * n) as nat)[k])) % m
        }),
{
    F::field_facts();
    let n = domains.first.len();
    law_witness_follows_h(
        p_eval,
        q_eval,
        w_eval,
        pp,
        cd,
        first,
        interpolating,
        coeffs,
        second,
        evaluating,
        evals,
        masking,
        t,
        next,
        extracting,
        h_coeff,
        result,
    );
    assert(first.p.direction is Inverse && first.q.direction is Inverse
        && first.w.direction is Inverse);
    assert(second.p.direction is Forward && second.q.direction is Forward
        && second.w.direction is Forward);
    lemma_padded(coeffs.0@, n);
    lemma_padded(coeffs.1@, n);
    lemma_padded(coeffs.2@, n);
    assert(result@ =~= h_coeff@);
    lemma_quotient_coefficients(
        domains,
        coeffs,
        evals,
        next.shares@,
        h_coeff@,
        t.model() as int,
        cd.size,
    );
}

} // verus!
