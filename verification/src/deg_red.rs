//! Degree reduction with the help of the king.
//!
//! Every party masks its shares and sends them to the king. The king unpacks what the
//! shares hold, packs it anew with a lower degree, and hands every party its new
//! shares, from which the party takes off the mask.

use crate::error::MpcNetError;
use crate::field::{models, DomainCoeff};
use crate::pack::{column, rectangular, transpose, width, PackedSharingParams};
use crate::stream_id::MultiplexedStreamID;
use vstd::prelude::*;

verus! {

/// What the king received: the shares, and which parties they are from.
pub struct ReceivedShares<T> {
    pub shares: Vec<T>,
    pub parties: Vec<u32>,
}

/// A request to send a share to the king, or, on the king, to receive those of the
/// parties, `threshold` of which may be missing.
pub struct Gather<T> {
    pub share: Vec<T>,
    pub channel: MultiplexedStreamID,
    pub threshold: usize,
}

/// A request to receive a share from the king, or, on the king, to send the parties
/// theirs.
pub struct Scatter<T> {
    pub answer: Option<Vec<Vec<T>>>,
    pub channel: MultiplexedStreamID,
}

/// Element by element, the sums of two lists, as far as the shorter one goes.
pub open spec fn sums<T: DomainCoeff>(a: Seq<T>, b: Seq<T>) -> Seq<T::Model> {
    Seq::new(
        if a.len() <= b.len() {
            a.len()
        } else {
            b.len()
        },
        |i: int| T::sum(a[i].model(), b[i].model()),
    )
}

fn add_all<T: DomainCoeff>(a: &Vec<T>, b: &Vec<T>) -> (r: Vec<T>)
    ensures
        models(r@) == sums(a@, b@),
{
    let mut r: Vec<T> = Vec::new();
    let mut i: usize = 0;
    while i < a.len() && i < b.len()
        invariant
            i <= a@.len(),
            i <= b@.len(),
            models(r@) == sums(a@, b@).take(i as int),
        decreases a@.len() - i,
    {
        let x: T = a[i].plus(b[i]);
        let ghost before = r@;
        r.push(x);
        assert(models(r@) =~= models(before).push(x.model()));
        i = i + 1;
    }
    assert(models(r@) =~= sums(a@, b@));
    r
}

/// What one column of the king's answer is made of: the column of the shares that were
/// received, the secrets that `unpack` found in it, and what `pack` made of these.
pub open spec fn repacked<T, U, P>(
    column: Seq<T>,
    parties: Vec<u32>,
    unpack: U,
    pack: P,
    packed: Seq<T>,
) -> bool where U: Fn(&Vec<T>, &Vec<u32>) -> Vec<T>, P: Fn(Vec<T>) -> Vec<T> {
    exists|row: Vec<T>, secrets: Vec<T>, new_row: Vec<T>|
        {
            &&& row@ == column
            &&& #[trigger] call_ensures(unpack, (&row, &parties), secrets)
            &&& #[trigger] call_ensures(pack, (secrets,), new_row)
            &&& new_row@ == packed
        }
}

/// Whether `unpack` takes the shares of these `count` parties, and `pack` what comes out
/// and makes `n` shares of it.
pub open spec fn can_repack<T, U, P>(
    count: nat,
    parties: Vec<u32>,
    n: nat,
    unpack: U,
    pack: P,
) -> bool where U: Fn(&Vec<T>, &Vec<u32>) -> Vec<T>, P: Fn(Vec<T>) -> Vec<T> {
    &&& forall|row: Vec<T>|
        row@.len() == count ==> #[trigger] call_requires(unpack, (&row, &parties))
    &&& forall|row: Vec<T>, secrets: Vec<T>|
        row@.len() == count && #[trigger] call_ensures(unpack, (&row, &parties), secrets)
            ==> call_requires(pack, (secrets,))
    &&& forall|secrets: Vec<T>, row: Vec<T>| #[trigger]
        call_ensures(pack, (secrets,), row) ==> row@.len() == n
}

/// Whether `answer` is the king's answer to these shares: a new share for each of the
/// `n` parties, repacked column by column.
pub open spec fn is_answer<T, U, P>(
    answer: Seq<Vec<T>>,
    shares: Seq<Vec<T>>,
    parties: Vec<u32>,
    n: nat,
    unpack: U,
    pack: P,
) -> bool where U: Fn(&Vec<T>, &Vec<u32>) -> Vec<T>, P: Fn(Vec<T>) -> Vec<T> {
    &&& answer.len() == if width(shares) == 0 {
        0
    } else {
        n
    }
    &&& forall|i: int| 0 <= i < answer.len() ==> (#[trigger] answer[i])@.len() == width(shares)
    &&& forall|j: int|
        0 <= j < width(shares) ==> repacked(
            column(shares, j),
            parties,
            unpack,
            pack,
            #[trigger] column(answer, j),
        )
}

/// A party whose masked shares are with the king.
pub struct Masked<T> {
    out_mask: Vec<T>,
    channel: MultiplexedStreamID,
    n: usize,
}

/// A party that waits for the king's answer.
pub struct Answered<T> {
    out_mask: Vec<T>,
}

/// Begins the degree reduction: the masked shares are for the king.
pub fn deg_red<T: DomainCoeff>(
    x_share: Vec<T>,
    in_mask: Vec<T>,
    out_mask: Vec<T>,
    pp: &PackedSharingParams,
    sid: MultiplexedStreamID,
) -> (r: (Gather<T>, Masked<T>))
    requires
        x_share@.len() == in_mask@.len(),
        x_share@.len() == out_mask@.len(),
    ensures
        models(r.0.share@) == sums(x_share@, in_mask@),
        r.0.channel == sid,
        r.0.threshold == pp.t,
        r.1.out_mask() == out_mask@,
        r.1.channel() == sid,
        r.1.n() == pp.n,
{
    let share: Vec<T> = add_all(&x_share, &in_mask);
    (Gather { share, channel: sid, threshold: pp.t }, Masked { out_mask, channel: sid, n: pp.n })
}

/// The king's answer to the shares that it received: column by column it unpacks the
/// secrets and packs them anew, and so has a new share for each of the `n` parties.
fn king_answer<T, U, P>(received: ReceivedShares<Vec<T>>, n: usize, unpack: U, pack: P) -> (answer:
    Vec<Vec<T>>) where T: DomainCoeff, U: Fn(&Vec<T>, &Vec<u32>) -> Vec<T>, P: Fn(Vec<T>) -> Vec<T>
    requires
        rectangular(received.shares@),
        can_repack(received.shares@.len(), received.parties, n as nat, unpack, pack),
    ensures
        is_answer(answer@, received.shares@, received.parties, n as nat, unpack, pack),
{
    let ghost shares = received.shares@;
    let parties: Vec<u32> = received.parties;
    let columns: Vec<Vec<T>> = transpose(received.shares);
    let mut rows: Vec<Vec<T>> = Vec::new();
    for j in 0..columns.len()
        invariant
            columns@.len() == width(shares),
            forall|k: int| 0 <= k < columns@.len() ==> (#[trigger] columns@[k])@ == column(shares, k),
            can_repack(shares.len(), parties, n as nat, unpack, pack),
            rows@.len() == j,
            forall|k: int|
                0 <= k < j ==> (#[trigger] rows@[k])@.len() == n && repacked(
                    column(shares, k),
                    parties,
                    unpack,
                    pack,
                    rows@[k]@,
                ),
    {
        assert(columns@[j as int]@ == column(shares, j as int));
        let secrets: Vec<T> = unpack(&columns[j], &parties);
        let row: Vec<T> = pack(secrets);
        rows.push(row);
    }
    let ghost packed = rows@;
    let answer: Vec<Vec<T>> = transpose(rows);
    assert forall|j: int| 0 <= j < width(shares) implies repacked(
        column(shares, j),
        parties,
        unpack,
        pack,
        #[trigger] column(answer@, j),
    ) by {
        assert(packed[j]@.len() == n);
        assert forall|i: int| 0 <= i < n implies column(answer@, j)[i] == packed[j]@[i] by {
            assert(answer@[i]@ == column(packed, i));
        }
        assert(column(answer@, j) =~= packed[j]@);
    }
    answer
}

impl<T> Masked<T> {
    /// What is added to the king's answer.
    pub closed spec fn out_mask(self) -> Seq<T> {
        self.out_mask@
    }

    /// The channel that the parties use.
    pub closed spec fn channel(self) -> MultiplexedStreamID {
        self.channel
    }

    /// Number of parties.
    pub closed spec fn n(self) -> nat {
        self.n as nat
    }
}

impl<T> Answered<T> {
    /// What is added to the king's answer.
    pub closed spec fn out_mask(self) -> Seq<T> {
        self.out_mask@
    }
}

impl<T: DomainCoeff> Masked<T> {
    /// The shares were sent, or, on the king, received; the king's answer is next.
    /// `unpack` finds the secrets in the shares of some parties, `pack` shares secrets
    /// among all.
    pub fn gathered<U, P>(
        self,
        received: Result<Option<ReceivedShares<Vec<T>>>, MpcNetError>,
        unpack: U,
        pack: P,
    ) -> (r: Result<(Scatter<T>, Answered<T>), MpcNetError>) where
        U: Fn(&Vec<T>, &Vec<u32>) -> Vec<T>,
        P: Fn(Vec<T>) -> Vec<T>,

        requires
            received matches Ok(Some(rs)) ==> rectangular(rs.shares@) && can_repack(
                rs.shares@.len(),
                rs.parties,
                self.n(),
                unpack,
                pack,
            ),
        ensures
            match (received, r) {
                (Ok(None), Ok((scatter, state))) => scatter.answer is None && scatter.channel
                    == self.channel() && state.out_mask() == self.out_mask(),
                (Ok(Some(rs)), Ok((scatter, state))) => {
                    &&& scatter.answer matches Some(answer) && is_answer(
                        answer@,
                        rs.shares@,
                        rs.parties,
                        self.n(),
                        unpack,
                        pack,
                    )
                    &&& scatter.channel == self.channel()
                    &&& state.out_mask() == self.out_mask()
                },
                (Err(cause), Err(e)) => e == cause,
                _ => false,
            },
    {
        let Masked { out_mask, channel, n } = self;
        match received {
            Ok(None) => Ok((Scatter { answer: None, channel }, Answered { out_mask })),
            Ok(Some(rs)) => {
                let answer: Vec<Vec<T>> = king_answer(rs, n, unpack, pack);
                Ok((Scatter { answer: Some(answer), channel }, Answered { out_mask }))
            },
            Err(e) => Err(e),
        }
    }
}

impl<T: DomainCoeff> Answered<T> {
    /// The king's answer has arrived: without the mask it is the reduced share.
    pub fn scattered(self, reply: Result<Vec<T>, MpcNetError>) -> (r: Result<Vec<T>, MpcNetError>)
        ensures
            match (reply, r) {
                (Ok(x_share), Ok(share)) => models(share@) == sums(x_share@, self.out_mask()),
                (Err(cause), Err(e)) => e == cause,
                _ => false,
            },
    {
        match reply {
            Ok(x_share) => Ok(add_all(&x_share, &self.out_mask)),
            Err(e) => Err(e),
        }
    }
}

/// A degree reduction loses no share. What goes to the king has an element for each of the
/// party's, the sum with its mask; what the party ends up with has an element for each of
/// the king's answer as far as there are masks, the sum with the mask; and all of it goes on
/// the channel that the party was given.
pub proof fn law_every_share_is_masked<T, U, P>(
    x_share: Vec<T>,
    in_mask: Vec<T>,
    out_mask: Vec<T>,
    pp: PackedSharingParams,
    sid: MultiplexedStreamID,
    gather: Gather<T>,
    masked: Masked<T>,
    received: Option<ReceivedShares<Vec<T>>>,
    unpack: U,
    pack: P,
    scatter: Scatter<T>,
    answered: Answered<T>,
    reply: Vec<T>,
    result: Vec<T>,
) where T: DomainCoeff, U: Fn(&Vec<T>, &Vec<u32>) -> Vec<T>, P: Fn(Vec<T>) -> Vec<T>
    requires
        x_share@.len() == in_mask@.len(),
        x_share@.len() == out_mask@.len(),
        call_ensures(deg_red::<T>, (x_share, in_mask, out_mask, &pp, sid), (gather, masked)),
        call_ensures(
            Masked::<T>::gathered::<U, P>,
            (masked, Ok(received), unpack, pack),
            Ok((scatter, answered)),
        ),
        call_ensures(Answered::<T>::scattered, (answered, Ok(reply)), Ok(result)),
    ensures
        gather.share@.len() == x_share@.len(),
        forall|i: int|
            0 <= i < x_share@.len() ==> (#[trigger] gather.share@[i]).model() == T::sum(
                x_share@[i].model(),
                in_mask@[i].model(),
            ),
        gather.channel == sid,
        gather.threshold == pp.t,
        scatter.channel == sid,
        scatter.answer is Some <==> received is Some,
        result@.len() == if reply@.len() <= out_mask@.len() {
            reply@.len()
        } else {
            out_mask@.len()
        },
        forall|i: int|
            0 <= i < result@.len() ==> (#[trigger] result@[i]).model() == T::sum(
                reply@[i].model(),
                out_mask@[i].model(),
            ),
{
    assert(models(gather.share@).len() == gather.share@.len());
    assert forall|i: int| 0 <= i < x_share@.len() implies (#[trigger] gather.share@[i]).model()
        == T::sum(x_share@[i].model(), in_mask@[i].model()) by {
        assert(models(gather.share@)[i] == sums(x_share@, in_mask@)[i]);
    }
    assert(models(result@).len() == result@.len());
    assert forall|i: int| 0 <= i < result@.len() implies (#[trigger] result@[i]).model() == T::sum(
        reply@[i].model(),
        out_mask@[i].model(),
    ) by {
        assert(models(result@)[i] == sums(reply@, out_mask@)[i]);
    }
}

/// The king's answer to lists of `columns` elements has such a list for each of the `n`
/// parties. At every place, `unpack` was given what all the lists have there, together with
/// whose they are, and `pack` what came out; and party `i` has what this made its share.
pub proof fn law_king_repacks_every_place<T, U, P>(
    x_share: Vec<T>,
    in_mask: Vec<T>,
    out_mask: Vec<T>,
    pp: PackedSharingParams,
    sid: MultiplexedStreamID,
    gather: Gather<T>,
    masked: Masked<T>,
    received: ReceivedShares<Vec<T>>,
    columns: nat,
    unpack: U,
    pack: P,
    scatter: Scatter<T>,
    answered: Answered<T>,
    j: int,
) where T: DomainCoeff, U: Fn(&Vec<T>, &Vec<u32>) -> Vec<T>, P: Fn(Vec<T>) -> Vec<T>
    requires
        call_ensures(deg_red::<T>, (x_share, in_mask, out_mask, &pp, sid), (gather, masked)),
        received.shares@.len() > 0,
        forall|k: int|
            0 <= k < received.shares@.len() ==> (#[trigger] received.shares@[k])@.len() == columns,
        call_ensures(
            Masked::<T>::gathered::<U, P>,
            (masked, Ok(Some(received)), unpack, pack),
            Ok((scatter, answered)),
        ),
        0 <= j < columns,
    ensures
        scatter.answer is Some,
        ({
            let answer = scatter.answer->0@;
            &&& answer.len() == pp.n
            &&& forall|i: int| 0 <= i < pp.n ==> (#[trigger] answer[i])@.len() == columns
            &&& exists|row: Vec<T>, secrets: Vec<T>, new_row: Vec<T>|
                {
                    &&& #[trigger] call_ensures(unpack, (&row, &received.parties), secrets)
                    &&& #[trigger] call_ensures(pack, (secrets,), new_row)
                    &&& row@.len() == received.shares@.len()
                    &&& forall|k: int|
                        0 <= k < row@.len() ==> #[trigger] row@[k] == received.shares@[k]@[j]
                    &&& new_row@.len() == pp.n
                    &&& forall|i: int|
                        0 <= i < pp.n ==> #[trigger] new_row@[i] == answer[i]@[j]
                }
        }),
{
    let answer = scatter.answer->0@;
    let shares = received.shares@;
    assert(shares[0]@.len() == columns);
    assert(repacked(column(shares, j), received.parties, unpack, pack, column(answer, j)));
    let (row, secrets, new_row) = choose|row: Vec<T>, secrets: Vec<T>, new_row: Vec<T>|
        {
            &&& row@ == column(shares, j)
            &&& #[trigger] call_ensures(unpack, (&row, &received.parties), secrets)
            &&& #[trigger] call_ensures(pack, (secrets,), new_row)
            &&& new_row@ == column(answer, j)
        };
    assert(new_row@.len() == pp.n);
}

/// Where nobody has sent anything, or only empty lists, the king has nothing to answer.
pub proof fn law_nothing_is_answered_to_nothing<T, U, P>(
    masked: Masked<T>,
    received: ReceivedShares<Vec<T>>,
    unpack: U,
    pack: P,
    scatter: Scatter<T>,
    answered: Answered<T>,
) where T: DomainCoeff, U: Fn(&Vec<T>, &Vec<u32>) -> Vec<T>, P: Fn(Vec<T>) -> Vec<T>
    requires
        forall|k: int|
            0 <= k < received.shares@.len() ==> (#[trigger] received.shares@[k])@.len() == 0,
        call_ensures(
            Masked::<T>::gathered::<U, P>,
            (masked, Ok(Some(received)), unpack, pack),
            Ok((scatter, answered)),
        ),
    ensures
        scatter.answer matches Some(answer) && answer@.len() == 0,
{
    if received.shares@.len() > 0 {
        assert(received.shares@[0]@.len() == 0);
    }
}

/// An error of either round ends the degree reduction, and is its result.
pub proof fn law_errors_end_the_reduction<T, U, P>(
    masked: Masked<T>,
    answered: Answered<T>,
    cause: MpcNetError,
    unpack: U,
    pack: P,
    gathered: Result<(Scatter<T>, Answered<T>), MpcNetError>,
    result: Result<Vec<T>, MpcNetError>,
) where T: DomainCoeff, U: Fn(&Vec<T>, &Vec<u32>) -> Vec<T>, P: Fn(Vec<T>) -> Vec<T>
    requires
        call_ensures(Masked::<T>::gathered::<U, P>, (masked, Err(cause), unpack, pack), gathered),
        call_ensures(Answered::<T>::scattered, (answered, Err(cause)), result),
    ensures
        gathered matches Err(e) && e == cause,
        result matches Err(e) && e == cause,
{
}

} // verus!
