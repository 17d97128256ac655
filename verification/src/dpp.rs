//! A trial of the distributed partial products: the king deals out the numbers from 1
//! on, the parties compute the partial products of each number divided by itself, and the
//! king expects ones.

use crate::deg_red::{Gather, ReceivedShares, Scatter};
use crate::field::{models, DomainCoeff, PrimeField};
use crate::pack::{column, copy, rectangular, transpose, width, PackedSharingParams};
use crate::stream_id::MultiplexedStreamID;
use vstd::arithmetic::div_mod::{
    lemma_add_mod_noop, lemma_mod_bound, lemma_mod_twice, lemma_small_mod,
};
use vstd::prelude::*;

verus! {

/// The residues of the numbers 1, 2, .., `size`.
pub open spec fn counted(size: nat, modulus: nat) -> Seq<nat> {
    Seq::new(size, |i: int| ((i + 1) % modulus as int) as nat)
}

fn count_up<F: PrimeField>(size: usize) -> (x: Vec<F>)
    ensures
        models(x@) == counted(size as nat, F::modulus()),
{
    let mut x: Vec<F> = Vec::new();
    for i in 0..size
        invariant
            models(x@) == counted(i as nat, F::modulus()),
    {
        let e: F = F::from_u64((i + 1) as u64);
        let ghost before = x@;
        proof {
            F::field_facts();
            lemma_mod_bound(i + 1, F::modulus() as int);
        }
        x.push(e);
        assert(models(x@) =~= models(before).push(e.model()));
        assert(models(x@) =~= counted((i + 1) as nat, F::modulus()));
    }
    x
}

/// A request for the partial products of the quotients of two lists of shares.
pub struct Quotients<F> {
    pub num: Vec<F>,
    pub den: Vec<F>,
    pub channel: MultiplexedStreamID,
}

/// Whether `px` is what the king deals out to the parties: its numbers, packed by `pack_vec`,
/// a list for each party.
pub open spec fn is_dealt<F, P>(px: Seq<Vec<F>>, size: nat, pack_vec: P) -> bool where
    F: PrimeField,
    P: Fn(&Vec<F>) -> Vec<Vec<F>>,
 {
    exists|x: Vec<F>, packed: Vec<Vec<F>>|
        {
            &&& models(x@) == counted(size, F::modulus())
            &&& #[trigger] call_ensures(pack_vec, (&x,), packed)
            &&& px.len() == width(packed@)
            &&& forall|i: int| 0 <= i < px.len() ==> (#[trigger] px[i])@ == column(packed@, i)
        }
}

/// The trial while the king deals.
pub struct Dealing {
    size: usize,
    threshold: usize,
}

/// The trial while the partial products are computed.
pub struct Multiplying {
    size: usize,
    threshold: usize,
}

/// The trial while the king collects the partial products.
pub struct Collecting {
    size: usize,
}

/// Begins the trial on the numbers up to `size`: the king deals them out, the other parties
/// have nothing to deal.
pub fn d_pp_test<F, P>(is_king: bool, size: usize, pp: &PackedSharingParams, pack_vec: P) -> (r: (
    Scatter<F>,
    Dealing,
)) where F: PrimeField, P: Fn(&Vec<F>) -> Vec<Vec<F>>
    requires
        forall|x: Vec<F>| #[trigger] call_requires(pack_vec, (&x,)),
        forall|x: Vec<F>, packed: Vec<Vec<F>>| #[trigger]
            call_ensures(pack_vec, (&x,), packed) ==> rectangular(packed@),
    ensures
        match r.0.answer {
            Some(px) => is_king && is_dealt(px@, size as nat, pack_vec),
            None => !is_king,
        },
        r.0.channel == MultiplexedStreamID::One,
        r.1.size() == size,
        r.1.threshold() == pp.t,
{
    let answer: Option<Vec<Vec<F>>> = if is_king {
        let x: Vec<F> = count_up(size);
        let packed: Vec<Vec<F>> = pack_vec(&x);
        Some(transpose(packed))
    } else {
        None
    };
    (Scatter { answer, channel: MultiplexedStreamID::One }, Dealing { size, threshold: pp.t })
}

impl Dealing {
    /// How many numbers there are.
    pub closed spec fn size(self) -> nat {
        self.size as nat
    }

    /// How many parties may be missing when the king collects.
    pub closed spec fn threshold(self) -> nat {
        self.threshold as nat
    }

    /// A party has its share of the numbers: they are divided by themselves next.
    pub fn dealt<F: Copy>(self, px_share: Vec<F>) -> (r: (Quotients<F>, Multiplying))
        ensures
            r.0.num@ == px_share@,
            r.0.den@ == px_share@,
            r.0.channel == MultiplexedStreamID::One,
            r.1.size() == self.size(),
            r.1.threshold() == self.threshold(),
    {
        let num: Vec<F> = copy(&px_share);
        (
            Quotients { num, den: px_share, channel: MultiplexedStreamID::One },
            Multiplying { size: self.size, threshold: self.threshold },
        )
    }
}

impl Multiplying {
    /// How many numbers there are.
    pub closed spec fn size(self) -> nat {
        self.size as nat
    }

    /// How many parties may be missing when the king collects.
    pub closed spec fn threshold(self) -> nat {
        self.threshold as nat
    }

    /// A party has its share of the partial products, which is for the king.
    pub fn multiplied<F>(self, pp_px_share: Vec<F>) -> (r: (Gather<F>, Collecting))
        ensures
            r.0.share@ == pp_px_share@,
            r.0.channel == MultiplexedStreamID::One,
            r.0.threshold == self.threshold(),
            r.1.size() == self.size(),
    {
        (
            Gather {
                share: pp_px_share,
                channel: MultiplexedStreamID::One,
                threshold: self.threshold,
            },
            Collecting { size: self.size },
        )
    }
}

impl Collecting {
    /// How many numbers there are.
    pub closed spec fn size(self) -> nat {
        self.size as nat
    }

    /// The partial products were sent, or, on the king, received: the king says whether they
    /// are ones, the other parties say nothing.
    pub fn gathered<F, U>(self, received: Option<ReceivedShares<Vec<F>>>, unpack: U) -> (r: Option<
        bool,
    >) where F: PrimeField, U: Fn(Vec<F>) -> Vec<F>
        requires
            received matches Some(rs) ==> rectangular(rs.shares@) && forall|row: Vec<F>|
                row@.len() == rs.shares@.len() ==> #[trigger] call_requires(unpack, (row,)),
        ensures
            match (received, r) {
                (Some(rs), Some(b)) => exists|rows: Seq<Vec<F>>| #[trigger]
                    unpacked(rows, rs.shares@, unpack) && (b <==> models(flattened(rows)) == ones(
                        self.size(),
                    )),
                (None, None) => true,
                _ => false,
            },
    {
        match received {
            Some(rs) => Some(d_pp_holds(rs.shares, self.size, unpack)),
            None => None,
        }
    }
}

/// All the elements of some lists, one list after the other.
pub open spec fn flattened<T>(lists: Seq<Vec<T>>) -> Seq<T>
    decreases lists.len(),
{
    if lists.len() == 0 {
        Seq::empty()
    } else {
        flattened(lists.drop_last()) + lists.last()@
    }
}

/// Whether `secrets` is what `unpack` found in this column of shares.
pub open spec fn found_in<F, U>(column: Seq<F>, unpack: U, secrets: Vec<F>) -> bool where
    U: Fn(Vec<F>) -> Vec<F>,
 {
    exists|row: Vec<F>|
        row@ == column && #[trigger] call_ensures(unpack, (row,), secrets)
}

/// Whether `rows` is what `unpack` found in the columns of these shares.
pub open spec fn unpacked<F, U>(rows: Seq<Vec<F>>, shares: Seq<Vec<F>>, unpack: U) -> bool where
    U: Fn(Vec<F>) -> Vec<F>,
 {
    &&& rows.len() == width(shares)
    &&& forall|j: int|
        0 <= j < rows.len() ==> found_in(column(shares, j), unpack, #[trigger] rows[j])
}

/// So many ones.
pub open spec fn ones(size: nat) -> Seq<nat> {
    Seq::new(size, |i: int| 1nat)
}

fn are_ones<F: PrimeField>(found: &Vec<F>, size: usize) -> (b: bool)
    ensures
        b <==> models(found@) == ones(size as nat),
{
    if found.len() != size {
        assert(models(found@).len() != ones(size as nat).len());
        return false;
    }
    for i in 0..size
        invariant
            found@.len() == size,
            forall|k: int| 0 <= k < i ==> (#[trigger] found@[k]).model() == 1,
    {
        if !found[i].is_one() {
            assert(models(found@)[i as int] != ones(size as nat)[i as int]);
            return false;
        }
    }
    assert(models(found@) =~= ones(size as nat));
    true
}

/// Whether the partial products that the king received, unpacked, are `size` ones.
fn d_pp_holds<F, U>(shares: Vec<Vec<F>>, size: usize, unpack: U) -> (b: bool) where
    F: PrimeField,
    U: Fn(Vec<F>) -> Vec<F>,

    requires
        rectangular(shares@),
        forall|row: Vec<F>|
            row@.len() == shares@.len() ==> #[trigger] call_requires(unpack, (row,)),
    ensures
        exists|rows: Seq<Vec<F>>| #[trigger]
            unpacked(rows, shares@, unpack) && (b <==> models(flattened(rows)) == ones(
                size as nat,
            )),
{
    let ghost all = shares@;
    let columns: Vec<Vec<F>> = transpose(shares);
    let ghost mut rows: Seq<Vec<F>> = Seq::empty();
    let mut found: Vec<F> = Vec::new();
    for column_j in it: columns
        invariant
            it.seq() == columns@,
            columns@.len() == width(all),
            forall|j: int| 0 <= j < columns@.len() ==> (#[trigger] columns@[j])@ == column(all, j),
            forall|row: Vec<F>|
                row@.len() == all.len() ==> #[trigger] call_requires(unpack, (row,)),
            rows.len() == it.index(),
            found@ == flattened(rows),
            forall|j: int|
                0 <= j < rows.len() ==> found_in(column(all, j), unpack, #[trigger] rows[j]),
    {
        assert(columns@[it.index() as int]@ == column(all, it.index() as int));
        let mut secrets: Vec<F> = unpack(column_j);
        let ghost before = rows;
        proof {
            rows = rows.push(secrets);
            assert(rows.drop_last() =~= before);
            assert(rows.last() == secrets);
            assert(found_in(column(all, before.len() as int), unpack, secrets));
        }
        found.append(&mut secrets);
    }
    assert(unpacked(rows, all, unpack));
    are_ones(&found, size)
}

/// The king deals the numbers 1, 2, 3 and so on, `size` of them: it packs these and gives
/// party `i` what each pack has for it. The other parties deal nothing.
pub proof fn law_king_deals_the_numbers<F, P>(
    is_king: bool,
    size: usize,
    pp: PackedSharingParams,
    pack_vec: P,
    deal: Scatter<F>,
    dealing: Dealing,
) where F: PrimeField, P: Fn(&Vec<F>) -> Vec<Vec<F>>
    requires
        call_ensures(d_pp_test::<F, P>, (is_king, size, &pp, pack_vec), (deal, dealing)),
    ensures
        deal.channel is One,
        deal.answer is Some <==> is_king,
        deal.answer matches Some(px) ==> exists|x: Vec<F>, packed: Vec<Vec<F>>|
            {
                &&& #[trigger] call_ensures(pack_vec, (&x,), packed)
                &&& x@.len() == size
                &&& size > 0 ==> x@[0].model() == 1
                &&& forall|i: int|
                    0 < i < size ==> (#[trigger] x@[i]).model() == (x@[i - 1].model() + 1)
                        % F::modulus()
                &&& packed@.len() == 0 ==> px@.len() == 0
                &&& packed@.len() > 0 ==> px@.len() == packed@[0]@.len()
                &&& forall|i: int|
                    0 <= i < px@.len() ==> (#[trigger] px@[i])@.len() == packed@.len()
                &&& forall|i: int, j: int|
                    0 <= i < px@.len() && 0 <= j < packed@.len() ==> #[trigger] px@[i]@[j]
                        == packed@[j]@[i]
            },
{
    if is_king {
        F::field_facts();
        let m = F::modulus() as int;
        let px = deal.answer->0@;
        let (x, packed) = choose|x: Vec<F>, packed: Vec<Vec<F>>|
            {
                &&& models(x@) == counted(size as nat, F::modulus())
                &&& #[trigger] call_ensures(pack_vec, (&x,), packed)
                &&& px.len() == width(packed@)
                &&& forall|i: int| 0 <= i < px.len() ==> (#[trigger] px[i])@ == column(packed@, i)
            };
        assert(models(x@).len() == x@.len());
        if size > 0 {
            assert(models(x@)[0] == counted(size as nat, F::modulus())[0]);
            lemma_small_mod(1, F::modulus());
        }
        assert forall|i: int| 0 < i < size implies (#[trigger] x@[i]).model() == (x@[i - 1].model()
            + 1) % F::modulus() by {
            assert(models(x@)[i] == counted(size as nat, F::modulus())[i]);
            assert(models(x@)[i - 1] == counted(size as nat, F::modulus())[i - 1]);
            lemma_mod_bound(i as int, m);
            lemma_mod_bound(i + 1, m);
            lemma_add_mod_noop(i as int, 1, m);
            lemma_add_mod_noop(i % m, 1, m);
            lemma_mod_twice(i as int, m);
        }
        assert(call_ensures(pack_vec, (&x,), packed));
    }
}

/// How many elements some lists have.
pub open spec fn elements_in<T>(lists: Seq<Vec<T>>) -> nat
    decreases lists.len(),
{
    if lists.len() == 0 {
        0
    } else {
        elements_in(lists.drop_last()) + lists.last()@.len()
    }
}

/// Whether an element is in one of some lists.
pub open spec fn in_lists<T>(lists: Seq<Vec<T>>, x: T) -> bool {
    exists|j: int, k: int|
        0 <= j < lists.len() && 0 <= k < lists[j]@.len() && #[trigger] lists[j]@[k] == x
}

/// Whether `unpack` found `secrets` in what all the lists have at place `j`.
pub open spec fn found_at<F, U>(shares: Seq<Vec<F>>, j: int, unpack: U, secrets: Vec<F>) -> bool where
    U: Fn(Vec<F>) -> Vec<F>,
 {
    exists|row: Vec<F>|
        {
            &&& #[trigger] call_ensures(unpack, (row,), secrets)
            &&& row@.len() == shares.len()
            &&& forall|k: int| 0 <= k < row@.len() ==> #[trigger] row@[k] == shares[k]@[j]
        }
}

proof fn lemma_flattened_elements<T>(lists: Seq<Vec<T>>)
    ensures
        flattened(lists).len() == elements_in(lists),
        forall|i: int|
            0 <= i < flattened(lists).len() ==> in_lists(lists, #[trigger] flattened(lists)[i]),
        forall|j: int, k: int|
            0 <= j < lists.len() && 0 <= k < lists[j]@.len() ==> flattened(lists).contains(
                #[trigger] lists[j]@[k],
            ),
    decreases lists.len(),
{
    if lists.len() > 0 {
        let rest = lists.drop_last();
        let last = lists.last()@;
        let flat = flattened(lists);
        lemma_flattened_elements(rest);
        assert(flat == flattened(rest) + last);
        assert forall|i: int| 0 <= i < flat.len() implies in_lists(lists, #[trigger] flat[i]) by {
            if i < flattened(rest).len() {
                assert(in_lists(rest, flattened(rest)[i]));
                let (j, k) = choose|j: int, k: int|
                    0 <= j < rest.len() && 0 <= k < rest[j]@.len() && #[trigger] rest[j]@[k]
                        == flattened(rest)[i];
                assert(lists[j]@[k] == flat[i]);
            } else {
                let k = i - flattened(rest).len();
                assert(lists[lists.len() - 1]@[k] == flat[i]);
            }
        }
        assert forall|j: int, k: int|
            0 <= j < lists.len() && 0 <= k < lists[j]@.len() implies flat.contains(
            #[trigger] lists[j]@[k],
        ) by {
            if j < rest.len() {
                assert(flattened(rest).contains(rest[j]@[k]));
                let i = choose|i: int|
                    0 <= i < flattened(rest).len() && flattened(rest)[i] == rest[j]@[k];
                assert(flat[i] == lists[j]@[k]);
            } else {
                assert(flat[flattened(rest).len() + k] == lists[j]@[k]);
            }
        }
    }
}

/// The king is content exactly when every secret that it finds is a one, and there are as
/// many as it has dealt numbers. It looks at every place of the lists that it received: there
/// `unpack` was given what all the lists have.
pub proof fn law_king_expects_ones<F, P, U>(
    is_king: bool,
    size: usize,
    pp: PackedSharingParams,
    pack_vec: P,
    deal: Scatter<F>,
    dealing: Dealing,
    px_share: Vec<F>,
    quotients: Quotients<F>,
    multiplying: Multiplying,
    pp_px_share: Vec<F>,
    gather: Gather<F>,
    collecting: Collecting,
    received: ReceivedShares<Vec<F>>,
    columns: nat,
    unpack: U,
    r: Option<bool>,
) where F: PrimeField, P: Fn(&Vec<F>) -> Vec<Vec<F>>, U: Fn(Vec<F>) -> Vec<F>
    requires
        call_ensures(d_pp_test::<F, P>, (is_king, size, &pp, pack_vec), (deal, dealing)),
        call_ensures(Dealing::dealt::<F>, (dealing, px_share), (quotients, multiplying)),
        call_ensures(Multiplying::multiplied::<F>, (multiplying, pp_px_share), (gather, collecting)),
        received.shares@.len() == 0 ==> columns == 0,
        forall|k: int|
            0 <= k < received.shares@.len() ==> (#[trigger] received.shares@[k])@.len() == columns,
        call_ensures(Collecting::gathered::<F, U>, (collecting, Some(received), unpack), r),
    ensures
        quotients.num@ == px_share@,
        quotients.den@ == px_share@,
        quotients.channel is One,
        gather.share@ == pp_px_share@,
        gather.channel is One,
        gather.threshold == pp.t,
        r is Some,
        exists|rows: Seq<Vec<F>>|
            {
                &&& rows.len() == columns
                &&& forall|j: int|
                    0 <= j < columns ==> found_at(
                        received.shares@,
                        j,
                        unpack,
                        #[trigger] rows[j],
                    )
                &&& r->0 <==> #[trigger] elements_in(rows) == size && forall|j: int, k: int|
                    0 <= j < columns && 0 <= k < rows[j]@.len() ==> (#[trigger] rows[j]@[k]).model()
                        == 1
            },
{
    let shares = received.shares@;
    if shares.len() > 0 {
        assert(shares[0]@.len() == columns);
    }
    let b = r->0;
    let rows = choose|rows: Seq<Vec<F>>| #[trigger]
        unpacked(rows, shares, unpack) && (b <==> models(flattened(rows)) == ones(size as nat));
    lemma_flattened_elements(rows);
    let flat = flattened(rows);
    assert(models(flat).len() == flat.len());
    assert forall|j: int| 0 <= j < columns implies found_at(
        shares,
        j,
        unpack,
        #[trigger] rows[j],
    ) by {
        assert(found_in(column(shares, j), unpack, rows[j]));
        let row = choose|row: Vec<F>|
            row@ == column(shares, j) && #[trigger] call_ensures(unpack, (row,), rows[j]);
        assert(call_ensures(unpack, (row,), rows[j]));
    }
    if b {
        assert forall|j: int, k: int| 0 <= j < columns && 0 <= k < rows[j]@.len() implies (
        #[trigger] rows[j]@[k]).model() == 1 by {
            assert(flat.contains(rows[j]@[k]));
            let i = choose|i: int| 0 <= i < flat.len() && flat[i] == rows[j]@[k];
            assert(models(flat)[i] == ones(size as nat)[i]);
        }
        assert(models(flat).len() == ones(size as nat).len());
    }
    if elements_in(rows) == size && (forall|j: int, k: int|
        0 <= j < columns && 0 <= k < rows[j]@.len() ==> (#[trigger] rows[j]@[k]).model() == 1) {
        assert forall|i: int| 0 <= i < flat.len() implies models(flat)[i] == ones(size as nat)[i] by {
            assert(in_lists(rows, flat[i]));
            let (j, k) = choose|j: int, k: int|
                0 <= j < rows.len() && 0 <= k < rows[j]@.len() && #[trigger] rows[j]@[k] == flat[i];
            assert(rows[j]@[k].model() == 1);
        }
        assert(models(flat) =~= ones(size as nat));
    }
}

} // verus!
