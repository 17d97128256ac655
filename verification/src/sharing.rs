//! Packed secret sharing, and what the degree reduction does to it.
//!
//! A sharing is a polynomial over a prime field. Its values at the parties' points are
//! the shares, its values at the secret points the secrets.

use crate::deg_red::{is_answer, repacked, sums, ReceivedShares};
use crate::ext_wit::{is_quotient, lemma_cancel, lemma_scaled_back, products, scaled};
use crate::field::{models, DomainCoeff, PrimeField};
use crate::pack::{column, width};
use vstd::arithmetic::div_mod::{
    lemma_add_mod_noop, lemma_mod_bound, lemma_mod_twice, lemma_mul_mod_noop,
    lemma_mul_mod_noop_left, lemma_small_mod, lemma_sub_mod_noop,
};
use vstd::arithmetic::mul::{
    lemma_mul_is_associative, lemma_mul_is_commutative, lemma_mul_is_distributive_add,
};
use vstd::prelude::*;

verus! {

/// The value at `x` of the polynomial with these coefficients, lowest first.
pub open spec fn eval(c: Seq<int>, x: int) -> int
    decreases c.len(),
{
    if c.len() == 0 {
        0
    } else {
        c[0] + x * eval(c.skip(1), x)
    }
}

/// The polynomial's residues at these points.
pub open spec fn values(c: Seq<int>, at: Seq<int>, p: nat) -> Seq<nat> {
    Seq::new(at.len(), |i: int| (eval(c, at[i]) % p as int) as nat)
}

/// Where shares and secrets stand, and modulo what.
pub struct Points {
    pub shares: Seq<int>,
    pub secrets: Seq<int>,
    pub modulus: nat,
}

/// Whether these shares hold these secrets in a polynomial of degree below `d`.
pub open spec fn packed(d: nat, points: Points, shares: Seq<nat>, secrets: Seq<nat>) -> bool {
    exists|c: Seq<int>|
        {
            &&& c.len() == d
            &&& shares == #[trigger] values(c, points.shares, points.modulus)
            &&& secrets == values(c, points.secrets, points.modulus)
        }
}

/// The points of some of the parties.
pub open spec fn points_of(parties: Seq<u32>, points: Points) -> Seq<int> {
    parties.map_values(|party: u32| points.shares[party as int])
}

/// Whether `found` is what the shares of these parties hold, if they are those of a
/// polynomial of degree below `d`.
pub open spec fn recovered(
    d: nat,
    points: Points,
    parties: Seq<u32>,
    shares: Seq<nat>,
    found: Seq<nat>,
) -> bool {
    forall|c: Seq<int>|
        c.len() == d && shares == #[trigger] values(c, points_of(parties, points), points.modulus)
            ==> found == values(c, points.secrets, points.modulus)
}

/// What the parties' lists stand for in one column.
pub open spec fn models_at<T: DomainCoeff>(lists: Seq<Vec<T>>, j: int) -> Seq<T::Model> {
    Seq::new(lists.len(), |i: int| lists[i]@[j].model())
}

/// Sums of what values stand for, element by element.
pub open spec fn add_models<T: DomainCoeff>(a: Seq<T::Model>, b: Seq<T::Model>) -> Seq<T::Model> {
    Seq::new(a.len(), |i: int| T::sum(a[i], b[i]))
}

/// Whether these are the shares that some of the parties hold of a sharing.
pub open spec fn held_by<M>(row: Seq<M>, parties: Seq<u32>, shares: Seq<M>) -> bool {
    &&& row.len() == parties.len()
    &&& forall|k: int|
        0 <= k < parties.len() ==> #[trigger] parties[k] < shares.len() && row[k]
            == shares[parties[k] as int]
}

/// Whether the masked shares of the parties that the king heard from are what it has.
pub open spec fn received_from<T: DomainCoeff>(
    received: ReceivedShares<Vec<T>>,
    x: Seq<Vec<T>>,
    in_mask: Seq<Vec<T>>,
) -> bool {
    &&& received.shares@.len() == received.parties@.len()
    &&& forall|k: int|
        0 <= k < received.parties@.len() ==> {
            let party = #[trigger] received.parties@[k] as int;
            &&& party < x.len()
            &&& models(received.shares@[k]@) == sums(x[party]@, in_mask[party]@)
        }
}

/// Whether every party has a share and its two masks at place `j`.
pub open spec fn masked_alike<T>(
    x: Seq<Vec<T>>,
    in_mask: Seq<Vec<T>>,
    out_mask: Seq<Vec<T>>,
    j: int,
) -> bool {
    &&& in_mask.len() == x.len()
    &&& out_mask.len() == x.len()
    &&& forall|i: int|
        0 <= i < x.len() ==> {
            &&& j < (#[trigger] x[i])@.len()
            &&& j < in_mask[i]@.len()
            &&& j < out_mask[i]@.len()
        }
}

/// Sums of residues, element by element.
pub open spec fn add_residues(a: Seq<nat>, b: Seq<nat>, p: nat) -> Seq<nat> {
    Seq::new(a.len(), |i: int| (a[i] + b[i]) % p)
}

/// The sum of two polynomials of one length.
pub open spec fn add_poly(a: Seq<int>, b: Seq<int>) -> Seq<int> {
    Seq::new(a.len(), |i: int| a[i] + b[i])
}

pub(crate) proof fn lemma_eval_add(a: Seq<int>, b: Seq<int>, x: int)
    requires
        a.len() == b.len(),
    ensures
        eval(add_poly(a, b), x) == eval(a, x) + eval(b, x),
    decreases a.len(),
{
    if a.len() > 0 {
        lemma_eval_add(a.skip(1), b.skip(1), x);
        assert(add_poly(a, b).skip(1) =~= add_poly(a.skip(1), b.skip(1)));
        lemma_mul_is_distributive_add(x, eval(a.skip(1), x), eval(b.skip(1), x));
    }
}

proof fn lemma_values_add(a: Seq<int>, b: Seq<int>, at: Seq<int>, p: nat)
    requires
        a.len() == b.len(),
        p > 0,
    ensures
        values(add_poly(a, b), at, p) == add_residues(values(a, at, p), values(b, at, p), p),
{
    assert forall|i: int| 0 <= i < at.len() implies #[trigger] values(add_poly(a, b), at, p)[i]
        == add_residues(values(a, at, p), values(b, at, p), p)[i] by {
        lemma_eval_add(a, b, at[i]);
        lemma_add_mod_noop(eval(a, at[i]), eval(b, at[i]), p as int);
        lemma_mod_bound(eval(a, at[i]), p as int);
        lemma_mod_bound(eval(b, at[i]), p as int);
    }
    assert(values(add_poly(a, b), at, p) =~= add_residues(values(a, at, p), values(b, at, p), p));
}

/// Shares can be added: the sums hold the sums of the secrets, in a polynomial of no
/// higher degree.
pub proof fn law_sharings_add(
    d: nat,
    points: Points,
    a: Seq<nat>,
    s: Seq<nat>,
    b: Seq<nat>,
    t: Seq<nat>,
)
    requires
        points.modulus > 0,
        packed(d, points, a, s),
        packed(d, points, b, t),
    ensures
        packed(
            d,
            points,
            add_residues(a, b, points.modulus),
            add_residues(s, t, points.modulus),
        ),
{
    let p = points.modulus;
    let c = choose|c: Seq<int>|
        c.len() == d && a == #[trigger] values(c, points.shares, p) && s == values(
            c,
            points.secrets,
            p,
        );
    let e = choose|e: Seq<int>|
        e.len() == d && b == #[trigger] values(e, points.shares, p) && t == values(
            e,
            points.secrets,
            p,
        );
    lemma_values_add(c, e, points.shares, p);
    lemma_values_add(c, e, points.secrets, p);
    assert(values(add_poly(c, e), points.shares, p) == add_residues(a, b, p));
}

/// A polynomial times a factor.
pub open spec fn scale_poly(a: Seq<int>, by: int) -> Seq<int> {
    Seq::new(a.len(), |i: int| by * a[i])
}

/// A polynomial with zeros for further coefficients.
pub open spec fn pad_poly(a: Seq<int>, len: nat) -> Seq<int> {
    Seq::new(len, |i: int| if i < a.len() { a[i] } else { 0 })
}

/// The product of two polynomials that have any coefficients.
pub open spec fn mul_poly(a: Seq<int>, b: Seq<int>) -> Seq<int>
    decreases a.len(),
{
    if a.len() <= 1 {
        scale_poly(b, a[0])
    } else {
        add_poly(
            pad_poly(scale_poly(b, a[0]), (a.len() + b.len() - 1) as nat),
            seq![0int] + mul_poly(a.skip(1), b),
        )
    }
}

pub(crate) proof fn lemma_eval_scale(a: Seq<int>, by: int, x: int)
    ensures
        eval(scale_poly(a, by), x) == by * eval(a, x),
    decreases a.len(),
{
    if a.len() > 0 {
        lemma_eval_scale(a.skip(1), by, x);
        assert(scale_poly(a, by).skip(1) =~= scale_poly(a.skip(1), by));
        let rest = eval(a.skip(1), x);
        assert(by * (a[0] + x * rest) == by * a[0] + x * (by * rest)) by (nonlinear_arith);
    }
}

proof fn lemma_eval_zeros(a: Seq<int>, x: int)
    requires
        forall|i: int| 0 <= i < a.len() ==> a[i] == 0,
    ensures
        eval(a, x) == 0,
    decreases a.len(),
{
    if a.len() > 0 {
        lemma_eval_zeros(a.skip(1), x);
    }
}

pub(crate) proof fn lemma_eval_pad(a: Seq<int>, len: nat, x: int)
    requires
        a.len() <= len,
    ensures
        eval(pad_poly(a, len), x) == eval(a, x),
    decreases a.len(),
{
    if a.len() == 0 {
        lemma_eval_zeros(pad_poly(a, len), x);
    } else {
        lemma_eval_pad(a.skip(1), (len - 1) as nat, x);
        assert(pad_poly(a, len).skip(1) =~= pad_poly(a.skip(1), (len - 1) as nat));
    }
}

pub(crate) proof fn lemma_eval_mul(a: Seq<int>, b: Seq<int>, x: int)
    requires
        a.len() > 0,
        b.len() > 0,
    ensures
        mul_poly(a, b).len() == a.len() + b.len() - 1,
        eval(mul_poly(a, b), x) == eval(a, x) * eval(b, x),
    decreases a.len(),
{
    lemma_eval_scale(b, a[0], x);
    if a.len() == 1 {
        assert(eval(a.skip(1), x) == 0);
        assert(eval(a, x) == a[0]) by {
            assert(x * 0 == 0);
        }
    } else {
        lemma_eval_mul(a.skip(1), b, x);
        let low = scale_poly(b, a[0]);
        let len = (a.len() + b.len() - 1) as nat;
        let high = seq![0int] + mul_poly(a.skip(1), b);
        lemma_eval_pad(low, len, x);
        assert(high.skip(1) =~= mul_poly(a.skip(1), b));
        lemma_eval_add(pad_poly(low, len), high, x);
        let u = eval(a.skip(1), x);
        let v = eval(b, x);
        assert(a[0] * v + x * (u * v) == (a[0] + x * u) * v) by (nonlinear_arith);
    }
}

/// Products of residues, element by element.
pub open spec fn multiply_residues(a: Seq<nat>, b: Seq<nat>, p: nat) -> Seq<nat> {
    Seq::new(a.len(), |i: int| ((a[i] * b[i]) as int % p as int) as nat)
}

proof fn lemma_values_mul(a: Seq<int>, b: Seq<int>, at: Seq<int>, p: nat)
    requires
        a.len() > 0,
        b.len() > 0,
        p > 0,
    ensures
        values(mul_poly(a, b), at, p) == multiply_residues(values(a, at, p), values(b, at, p), p),
{
    assert forall|i: int| 0 <= i < at.len() implies #[trigger] values(mul_poly(a, b), at, p)[i]
        == multiply_residues(values(a, at, p), values(b, at, p), p)[i] by {
        lemma_eval_mul(a, b, at[i]);
        lemma_mul_mod_noop(eval(a, at[i]), eval(b, at[i]), p as int);
        lemma_mod_bound(eval(a, at[i]), p as int);
        lemma_mod_bound(eval(b, at[i]), p as int);
    }
    assert(values(mul_poly(a, b), at, p) =~= multiply_residues(
        values(a, at, p),
        values(b, at, p),
        p,
    ));
}

/// Shares can be multiplied: the products hold the products of the secrets, in a polynomial
/// whose degree is the sum of the degrees. So the products of two sharings of degree below
/// `d` are a sharing of degree below `2 * d - 1`.
pub proof fn law_sharings_multiply(
    d: nat,
    e: nat,
    points: Points,
    a: Seq<nat>,
    s: Seq<nat>,
    b: Seq<nat>,
    t: Seq<nat>,
)
    requires
        points.modulus > 0,
        d > 0,
        e > 0,
        packed(d, points, a, s),
        packed(e, points, b, t),
    ensures
        packed(
            (d + e - 1) as nat,
            points,
            multiply_residues(a, b, points.modulus),
            multiply_residues(s, t, points.modulus),
        ),
{
    let p = points.modulus;
    let c = choose|c: Seq<int>|
        c.len() == d && a == #[trigger] values(c, points.shares, p) && s == values(
            c,
            points.secrets,
            p,
        );
    let g = choose|g: Seq<int>|
        g.len() == e && b == #[trigger] values(g, points.shares, p) && t == values(
            g,
            points.secrets,
            p,
        );
    lemma_eval_mul(c, g, 0);
    lemma_values_mul(c, g, points.shares, p);
    lemma_values_mul(c, g, points.secrets, p);
    assert(values(mul_poly(c, g), points.shares, p) == multiply_residues(a, b, p));
}

/// A sharing of a low degree is one of any higher degree.
pub proof fn law_degree_may_grow(d: nat, e: nat, points: Points, a: Seq<nat>, s: Seq<nat>)
    requires
        d <= e,
        packed(d, points, a, s),
    ensures
        packed(e, points, a, s),
{
    let p = points.modulus;
    let c = choose|c: Seq<int>|
        c.len() == d && a == #[trigger] values(c, points.shares, p) && s == values(
            c,
            points.secrets,
            p,
        );
    let g = pad_poly(c, e);
    assert forall|x: int| #[trigger] eval(g, x) == eval(c, x) by {
        lemma_eval_pad(c, e, x);
    }
    assert(a =~= values(g, points.shares, p));
    assert(s =~= values(g, points.secrets, p));
}

pub(crate) open spec fn quotient_poly(p: Seq<int>, q: Seq<int>, w: Seq<int>, by: int) -> Seq<int> {
    let pq = mul_poly(p, q);
    scale_poly(add_poly(pq, scale_poly(pad_poly(w, pq.len()), -1)), by)
}

pub(crate) proof fn lemma_eval_quotient(p: Seq<int>, q: Seq<int>, w: Seq<int>, by: int, x: int)
    requires
        p.len() > 0,
        q.len() > 0,
        w.len() <= p.len() + q.len() - 1,
    ensures
        quotient_poly(p, q, w, by).len() == p.len() + q.len() - 1,
        eval(quotient_poly(p, q, w, by), x) == by * (eval(p, x) * eval(q, x) - eval(w, x)),
{
    lemma_eval_mul(p, q, x);
    let pq = mul_poly(p, q);
    let minus_w = scale_poly(pad_poly(w, pq.len()), -1);
    lemma_eval_pad(w, pq.len(), x);
    lemma_eval_scale(pad_poly(w, pq.len()), -1, x);
    lemma_eval_add(pq, minus_w, x);
    lemma_eval_scale(add_poly(pq, minus_w), by, x);
}

/// With residues for the values of the polynomials, `p * q - w` is scaled alike.
pub(crate) proof fn lemma_quotient_residue(p: int, q: int, w: int, by: int, m: int)
    requires
        m > 0,
    ensures
        (by * (p * q - w)) % m == ((((p % m) * (q % m) - w % m) % m) * by) % m,
{
    lemma_mul_mod_noop(p, q, m);
    lemma_sub_mod_noop(p * q, w, m);
    lemma_sub_mod_noop((p % m) * (q % m), w % m, m);
    lemma_mod_twice(w, m);
    lemma_mul_mod_noop_left(p * q - w, by, m);
    lemma_mul_is_commutative(by, p * q - w);
}

/// Whether shares of this kind can be added: `holds` says which shares hold which
/// secrets, and the sums of shares hold the sums of their secrets.
#[verifier::opaque]
pub open spec fn addable<T: DomainCoeff>(
    holds: spec_fn(Seq<T::Model>, Seq<T::Model>) -> bool,
) -> bool {
    forall|a: Seq<T::Model>, s: Seq<T::Model>, b: Seq<T::Model>, t: Seq<T::Model>| #[trigger]
        holds(a, s) && #[trigger] holds(b, t) ==> holds(
            add_models::<T>(a, b),
            add_models::<T>(s, t),
        )
}

proof fn lemma_addable<T: DomainCoeff>(
    holds: spec_fn(Seq<T::Model>, Seq<T::Model>) -> bool,
    a: Seq<T::Model>,
    s: Seq<T::Model>,
    b: Seq<T::Model>,
    t: Seq<T::Model>,
)
    requires
        addable::<T>(holds),
        holds(a, s),
        holds(b, t),
    ensures
        holds(add_models::<T>(a, b), add_models::<T>(s, t)),
{
    reveal(addable);
}

/// The degree reduction keeps the secrets but for the masks. `high` and `low` say of two
/// kinds of sharing which shares hold which secrets; shares of either kind can be added.
/// Let the parties' shares `x` and the masks `in_mask` be of the kind `high`, and the masks
/// `out_mask` of the kind `low`. If `unpack` finds the secrets of a sharing of the kind
/// `high` in the shares of the parties that the king heard from, and `pack` makes sharings
/// of the kind `low`, then what the parties end up with is a sharing of the kind `low` of
/// the sums of the secrets in `x`, in `in_mask` and in `out_mask`. Where the masks cancel,
/// these are the secrets in `x`.
pub proof fn law_deg_red_keeps_secrets<T, U, P>(
    high: spec_fn(Seq<T::Model>, Seq<T::Model>) -> bool,
    low: spec_fn(Seq<T::Model>, Seq<T::Model>) -> bool,
    x: Seq<Vec<T>>,
    in_mask: Seq<Vec<T>>,
    out_mask: Seq<Vec<T>>,
    received: ReceivedShares<Vec<T>>,
    unpack: U,
    pack: P,
    answer: Seq<Vec<T>>,
    result: Seq<Vec<T>>,
    j: int,
    secrets: Seq<T::Model>,
    masks: Seq<T::Model>,
    unmasks: Seq<T::Model>,
) where T: DomainCoeff, U: Fn(&Vec<T>, &Vec<u32>) -> Vec<T>, P: Fn(Vec<T>) -> Vec<T>
    requires
        addable::<T>(high),
        addable::<T>(low),
        masked_alike(x, in_mask, out_mask, j),
        high(models_at(x, j), secrets),
        high(models_at(in_mask, j), masks),
        low(models_at(out_mask, j), unmasks),
        received_from(received, x, in_mask),
        0 <= j,
        received.parties@.len() > 0,
        is_answer(answer, received.shares@, received.parties, x.len(), unpack, pack),
        forall|row: Vec<T>, found: Vec<T>, all: Seq<T::Model>, held: Seq<T::Model>| #[trigger]
            call_ensures(unpack, (&row, &received.parties), found) && #[trigger] high(all, held)
                && held_by(models(row@), received.parties@, all) ==> models(found@) == held,
        forall|found: Vec<T>, row: Vec<T>| #[trigger]
            call_ensures(pack, (found,), row) ==> low(models(row@), models(found@)),
        result.len() == x.len(),
        forall|i: int|
            0 <= i < x.len() ==> models((#[trigger] result[i])@) == sums(
                answer[i]@,
                out_mask[i]@,
            ),
    ensures
        ({
            let sum = add_models::<T>(add_models::<T>(secrets, masks), unmasks);
            &&& low(models_at(result, j), sum)
            &&& sum == secrets ==> low(models_at(result, j), secrets)
        }),
{
    let shares = received.shares@;
    assert(j < width(shares)) by {
        let first = received.parties@[0] as int;
        assert(j < x[first]@.len());
        assert(models(shares[0]@) == sums(x[first]@, in_mask[first]@));
        assert(models(shares[0]@).len() == shares[0]@.len());
    }
    let masked = add_models::<T>(models_at(x, j), models_at(in_mask, j));
    let sum = add_models::<T>(secrets, masks);
    lemma_addable::<T>(high, models_at(x, j), secrets, models_at(in_mask, j), masks);
    assert(repacked(column(shares, j), received.parties, unpack, pack, column(answer, j)));
    let (row, found, new_row) = choose|row: Vec<T>, found: Vec<T>, new_row: Vec<T>|
        {
            &&& row@ == column(shares, j)
            &&& #[trigger] call_ensures(unpack, (&row, &received.parties), found)
            &&& #[trigger] call_ensures(pack, (found,), new_row)
            &&& new_row@ == column(answer, j)
        };
    assert forall|k: int| 0 <= k < received.parties@.len() implies (#[trigger] received.parties@[k])
        < masked.len() && models(row@)[k] == masked[received.parties@[k] as int] by {
        let party = received.parties@[k] as int;
        assert(j < x[party]@.len());
        assert(models(shares[k]@)[j] == sums(x[party]@, in_mask[party]@)[j]);
        assert(models(shares[k]@).len() == shares[k]@.len());
    }
    assert(held_by(models(row@), received.parties@, masked));
    assert(models(found@) == sum);
    assert(models(new_row@) =~= models_at(answer, j));
    assert forall|i: int| 0 <= i < result.len() implies #[trigger] models_at(result, j)[i]
        == add_models::<T>(models_at(answer, j), models_at(out_mask, j))[i] by {
        assert(models(result[i]@) == sums(answer[i]@, out_mask[i]@));
        assert(j < x[i]@.len());
        assert(answer[i]@.len() == width(shares));
        assert(models(result[i]@).len() == result[i]@.len());
        assert(models(result[i]@)[j] == sums(answer[i]@, out_mask[i]@)[j]);
    }
    assert(models_at(result, j) =~= add_models::<T>(models_at(answer, j), models_at(out_mask, j)));
    lemma_addable::<T>(low, models_at(answer, j), sum, models_at(out_mask, j), unmasks);
}

proof fn lemma_recovered_from_some(
    d: nat,
    points: Points,
    parties: Seq<u32>,
    shares: Seq<nat>,
    secrets: Seq<nat>,
    row: Seq<nat>,
    found: Seq<nat>,
)
    requires
        packed(d, points, shares, secrets),
        held_by(row, parties, shares),
        recovered(d, points, parties, row, found),
    ensures
        found == secrets,
{
    let p = points.modulus;
    let c = choose|c: Seq<int>|
        c.len() == d && shares == #[trigger] values(c, points.shares, p) && secrets == values(
            c,
            points.secrets,
            p,
        );
    assert forall|k: int| 0 <= k < parties.len() implies row[k] == #[trigger] values(
        c,
        points_of(parties, points),
        p,
    )[k] by {
        assert(parties[k] < points.shares.len());
    }
    assert(row =~= values(c, points_of(parties, points), p));
}

proof fn lemma_packed_addable<F: PrimeField>(d: nat, points: Points)
    requires
        points.modulus == F::modulus(),
    ensures
        addable::<F>(|a: Seq<nat>, s: Seq<nat>| packed(d, points, a, s)),
{
    F::field_facts();
    let holds = |a: Seq<nat>, s: Seq<nat>| packed(d, points, a, s);
    if !addable::<F>(holds) {
        reveal(addable);
        let (a, s, b, t) = choose|a: Seq<nat>, s: Seq<nat>, b: Seq<nat>, t: Seq<nat>|
            #![trigger holds(a, s), holds(b, t)]
            holds(a, s) && holds(b, t) && !holds(add_models::<F>(a, b), add_models::<F>(s, t));
        law_sharings_add(d, points, a, s, b, t);
        assert(add_models::<F>(a, b) =~= add_residues(a, b, points.modulus));
        assert(add_models::<F>(s, t) =~= add_residues(s, t, points.modulus));
    }
}

proof fn lemma_masks_cancel(
    d: nat,
    points: Points,
    shares: Seq<nat>,
    secrets: Seq<nat>,
    masks: Seq<nat>,
    unmasks: Seq<nat>,
)
    requires
        points.modulus > 0,
        packed(d, points, shares, secrets),
        forall|k: int|
            0 <= k < points.secrets.len() ==> (#[trigger] masks[k] + unmasks[k]) % points.modulus
                == 0,
    ensures
        add_residues(add_residues(secrets, masks, points.modulus), unmasks, points.modulus)
            == secrets,
{
    let p = points.modulus;
    let total = add_residues(add_residues(secrets, masks, p), unmasks, p);
    let c = choose|c: Seq<int>|
        c.len() == d && shares == #[trigger] values(c, points.shares, p) && secrets == values(
            c,
            points.secrets,
            p,
        );
    assert forall|k: int| 0 <= k < secrets.len() implies total[k] == #[trigger] secrets[k] by {
        lemma_mod_bound(eval(c, points.secrets[k]), p as int);
        let s = secrets[k] as int;
        let m = masks[k] as int;
        let g = unmasks[k] as int;
        lemma_add_mod_noop((s + m) % p as int, g, p as int);
        lemma_add_mod_noop(s + m, g, p as int);
        lemma_mod_twice(s + m, p as int);
        lemma_add_mod_noop(s, m + g, p as int);
        assert((masks[k] + unmasks[k]) % p == 0);
        lemma_small_mod(secrets[k], p);
    }
    assert(total =~= secrets);
}

/// The degree reduction lowers the degree and keeps the secrets but for the masks. Let the
/// parties' shares `x` and the masks `in_mask` be sharings of degree below `high`, and the
/// masks `out_mask` sharings of degree below `low`. If the king hears from enough parties
/// that `unpack` finds the secrets of a sharing of degree below `high`, and `pack` makes
/// sharings of degree below `low`, then what the parties end up with are sharings, of
/// degree below `low`, of the sums of the secrets in `x`, in `in_mask` and in `out_mask`.
/// Where the masks cancel, these are the secrets in `x`.
pub proof fn law_deg_red_lowers_degree<F, U, P>(
    points: Points,
    high: nat,
    low: nat,
    x: Seq<Vec<F>>,
    in_mask: Seq<Vec<F>>,
    out_mask: Seq<Vec<F>>,
    received: ReceivedShares<Vec<F>>,
    unpack: U,
    pack: P,
    answer: Seq<Vec<F>>,
    result: Seq<Vec<F>>,
    j: int,
    secrets: Seq<nat>,
    masks: Seq<nat>,
    unmasks: Seq<nat>,
) where F: PrimeField, U: Fn(&Vec<F>, &Vec<u32>) -> Vec<F>, P: Fn(Vec<F>) -> Vec<F>
    requires
        points.modulus == F::modulus(),
        masked_alike(x, in_mask, out_mask, j),
        packed(high, points, models_at(x, j), secrets),
        packed(high, points, models_at(in_mask, j), masks),
        packed(low, points, models_at(out_mask, j), unmasks),
        received_from(received, x, in_mask),
        0 <= j,
        received.parties@.len() > 0,
        is_answer(answer, received.shares@, received.parties, x.len(), unpack, pack),
        forall|row: Vec<F>, found: Vec<F>| #[trigger]
            call_ensures(unpack, (&row, &received.parties), found) ==> recovered(
                high,
                points,
                received.parties@,
                models(row@),
                models(found@),
            ),
        forall|found: Vec<F>, row: Vec<F>| #[trigger]
            call_ensures(pack, (found,), row) ==> packed(
                low,
                points,
                models(row@),
                models(found@),
            ),
        result.len() == x.len(),
        forall|i: int|
            0 <= i < x.len() ==> models((#[trigger] result[i])@) == sums(
                answer[i]@,
                out_mask[i]@,
            ),
    ensures
        packed(
            low,
            points,
            models_at(result, j),
            add_residues(add_residues(secrets, masks, points.modulus), unmasks, points.modulus),
        ),
        (forall|k: int|
            0 <= k < points.secrets.len() ==> (#[trigger] masks[k] + unmasks[k]) % points.modulus
                == 0) ==> packed(low, points, models_at(result, j), secrets),
{
    F::field_facts();
    let p = points.modulus;
    let of_high = |a: Seq<nat>, s: Seq<nat>| packed(high, points, a, s);
    let of_low = |a: Seq<nat>, s: Seq<nat>| packed(low, points, a, s);
    lemma_packed_addable::<F>(high, points);
    lemma_packed_addable::<F>(low, points);
    assert forall|row: Vec<F>, found: Vec<F>, all: Seq<nat>, held: Seq<nat>| #[trigger]
        call_ensures(unpack, (&row, &received.parties), found) && #[trigger] of_high(all, held)
            && held_by(models(row@), received.parties@, all) implies models(found@) == held by {
        lemma_recovered_from_some(
            high,
            points,
            received.parties@,
            all,
            held,
            models(row@),
            models(found@),
        );
    }
    law_deg_red_keeps_secrets::<F, U, P>(
        of_high,
        of_low,
        x,
        in_mask,
        out_mask,
        received,
        unpack,
        pack,
        answer,
        result,
        j,
        secrets,
        masks,
        unmasks,
    );
    let sum = add_models::<F>(secrets, masks);
    let total = add_models::<F>(sum, unmasks);
    assert(of_low(models_at(result, j), total));
    assert(sum =~= add_residues(secrets, masks, p));
    assert(total =~= add_residues(add_residues(secrets, masks, p), unmasks, p));
    if forall|k: int| 0 <= k < points.secrets.len() ==> (#[trigger] masks[k] + unmasks[k]) % p == 0 {
        lemma_masks_cancel(high, points, models_at(x, j), secrets, masks, unmasks);
    }
}

proof fn lemma_rescaled(n: int, t: int, inverse: int, size: int, m: int)
    requires
        m > 1,
        (inverse * size) % m == 1,
    ensures
        (((n * (t * inverse)) % m) * size) % m == (n * t) % m,
{
    lemma_mul_is_associative(n, t, inverse);
    lemma_scaled_back(n * t, inverse, size, m);
}

/// The quotient is shared. Let the parties' evaluations `p` and `q` be sharings of degree
/// below `d`, those of `w` a sharing of degree below `2 * d - 1`, and let every party
/// extract its shares `r` with one and the same mask `t`. Then `r` is a sharing, of degree
/// below `2 * d - 1`, of `(p * q - w) * t` divided by the size of the domain, taken of the
/// secrets. `inverse` is the inverse of the size.
pub proof fn law_quotient_is_shared<F: PrimeField>(
    points: Points,
    d: nat,
    p: Seq<Vec<F>>,
    q: Seq<Vec<F>>,
    w: Seq<Vec<F>>,
    r: Seq<Vec<F>>,
    j: int,
    secrets: (Seq<nat>, Seq<nat>, Seq<nat>),
    t: nat,
    size: u64,
    inverse: nat,
)
    requires
        points.modulus == F::modulus(),
        d > 0,
        packed(d, points, models_at(p, j), secrets.0),
        packed(d, points, models_at(q, j), secrets.1),
        packed((2 * d - 1) as nat, points, models_at(w, j), secrets.2),
        (inverse * size) % F::modulus() as int == 1,
        r.len() == p.len(),
        forall|i: int|
            0 <= i < r.len() ==> 0 <= j < (#[trigger] r[i])@.len() && is_quotient(
                models(r[i]@),
                products(models(p[i]@), models(q[i]@), models(w[i]@), F::modulus()),
                t,
                size,
                F::modulus(),
            ),
        forall|i: int|
            0 <= i < r.len() ==> (#[trigger] p[i])@.len() <= q[i]@.len() && p[i]@.len()
                <= w[i]@.len(),
    ensures
        ({
            let v = products(secrets.0, secrets.1, secrets.2, F::modulus());
            let u = scaled(v, t * inverse, F::modulus());
            &&& packed((2 * d - 1) as nat, points, models_at(r, j), u)
            &&& is_quotient(u, v, t, size, F::modulus())
        }),
{
    F::field_facts();
    let modulus = F::modulus();
    let m = modulus as int;
    let (sp, sq, sw) = secrets;
    let cp = choose|c: Seq<int>|
        c.len() == d && models_at(p, j) == #[trigger] values(c, points.shares, modulus) && sp
            == values(c, points.secrets, modulus);
    let cq = choose|c: Seq<int>|
        c.len() == d && models_at(q, j) == #[trigger] values(c, points.shares, modulus) && sq
            == values(c, points.secrets, modulus);
    let cw = choose|c: Seq<int>|
        c.len() == 2 * d - 1 && models_at(w, j) == #[trigger] values(c, points.shares, modulus)
            && sw == values(c, points.secrets, modulus);
    assert(models_at(p, j).len() == points.shares.len());
    assert(models_at(q, j).len() == points.shares.len());
    assert(models_at(w, j).len() == points.shares.len());
    let by = (t * inverse) as int;
    let c = quotient_poly(cp, cq, cw, by);
    let v = products(sp, sq, sw, modulus);
    let u = scaled(v, t * inverse, modulus);
    assert forall|k: int| 0 <= k < u.len() implies u[k] == #[trigger] values(
        c,
        points.secrets,
        modulus,
    )[k] by {
        let x = points.secrets[k];
        lemma_eval_quotient(cp, cq, cw, by, x);
        lemma_quotient_residue(eval(cp, x), eval(cq, x), eval(cw, x), by, m);
        lemma_mod_bound(eval(cp, x), m);
        lemma_mod_bound(eval(cq, x), m);
        lemma_mod_bound(eval(cw, x), m);
        assert(sp[k] == eval(cp, x) % m && sq[k] == eval(cq, x) % m && sw[k] == eval(cw, x) % m);
        lemma_mod_bound(sp[k] * sq[k] - sw[k], m);
    }
    assert forall|i: int| 0 <= i < r.len() implies models_at(r, j)[i] == #[trigger] values(
        c,
        points.shares,
        modulus,
    )[i] by {
        let x = points.shares[i];
        let a = models(p[i]@)[j];
        let b = models(q[i]@)[j];
        let e = models(w[i]@)[j];
        let got = models(r[i]@)[j];
        let n = (a * b - e) % m;
        assert(r[i]@.len() > j);
        assert(p[i]@.len() == r[i]@.len());
        assert(models_at(p, j)[i] == a && models_at(q, j)[i] == b && models_at(w, j)[i] == e);
        lemma_eval_quotient(cp, cq, cw, by, x);
        lemma_quotient_residue(eval(cp, x), eval(cq, x), eval(cw, x), by, m);
        lemma_mod_bound(eval(cp, x), m);
        lemma_mod_bound(eval(cq, x), m);
        lemma_mod_bound(eval(cw, x), m);
        lemma_mod_bound(a * b - e, m);
        assert(got < modulus && (got * size) % m == (n * t) % m);
        lemma_mod_bound(n * by, m);
        lemma_rescaled(n, t as int, inverse as int, size as int, m);
        lemma_cancel(got as int, (n * by) % m, size as int, inverse as int, m);
    }
    lemma_eval_quotient(cp, cq, cw, by, 0);
    assert(models_at(r, j) =~= values(c, points.shares, modulus));
    assert(u =~= values(c, points.secrets, modulus));
    assert forall|k: int| 0 <= k < u.len() implies #[trigger] u[k] < modulus && (u[k] * size) % m
        == (v[k] * t) as int % m by {
        lemma_mod_bound((v[k] * (t * inverse)) as int, m);
        lemma_rescaled(v[k] as int, t as int, inverse as int, size as int, m);
    }
}

} // verus!
