//! How a party connects to all the others.
//!
//! Of two parties the one with the smaller number dials and the other one accepts.
//! A party dials and accepts at the same time; what it learns is kept in one
//! [`Connecting`], to which both tasks report.

use crate::connection::{fully_linked, linked, unlink, unlinked, MpcNetConnection};
use crate::deg_red::ReceivedShares;
use crate::error::{decimal, law_decimal_reads_back, reading, MpcNetError};
use crate::peer::Peer;
use crate::stream_id::{MultiplexedStreamID, MULTIPLEXED_STREAMS};
use std::collections::HashMap;
use vstd::prelude::*;

verus! {

broadcast use vstd::std_specs::hash::group_hash_axioms;

/// Number of connections that party `my_id` accepts.
pub open spec fn inbound(my_id: nat) -> nat {
    my_id
}

/// Number of connections that party `my_id` of `n` makes.
pub open spec fn outbound(my_id: nat, n: nat) -> int {
    n - 1 - my_id
}

/// The party that `my_id` dials after `made` connections.
pub open spec fn target(my_id: nat, made: nat) -> nat {
    my_id + made + 1
}

/// Whether party `from` of `n` dials party `to`.
pub open spec fn dials(from: nat, to: nat, n: nat) -> bool {
    exists|made: nat| made < outbound(from, n) && to == #[trigger] target(from, made)
}

/// The parties that `my_id` has a connection with, after `dialed` calls of its own and
/// after the parties `announced` have called.
pub open spec fn reached(my_id: nat, dialed: nat, announced: Seq<u32>) -> Set<u32> {
    Set::new(
        |id: u32|
            announced.contains(id) || exists|made: nat|
                made < dialed && id == #[trigger] target(my_id, made),
    )
}

/// How a new connection is multiplexed: into how many channels, and whether by the side
/// that accepts these.
#[derive(Clone, Copy, Debug, PartialEq, Eq, Structural)]
pub struct Multiplex {
    pub channels: usize,
    pub is_server: bool,
}

/// The side of a party that has dialed.
pub open spec fn dialing_side() -> Multiplex {
    Multiplex { channels: MULTIPLEXED_STREAMS, is_server: false }
}

/// The side of a party that was dialed.
pub open spec fn accepting_side() -> Multiplex {
    Multiplex { channels: MULTIPLEXED_STREAMS, is_server: true }
}

/// The side that party `a` of `n` takes on its connection with party `b`, if they have one.
pub open spec fn side_of(a: nat, b: nat, n: nat) -> Option<Multiplex> {
    if dials(a, b, n) {
        Some(dialing_side())
    } else if dials(b, a, n) {
        Some(accepting_side())
    } else {
        None
    }
}

/// A connection on which the announcement, the number of the party that dials, comes first.
/// Only after that does one learn how it is multiplexed.
pub struct Unannounced {
    side: Multiplex,
}

impl Unannounced {
    /// How the connection is multiplexed after the announcement.
    pub closed spec fn side(self) -> Multiplex {
        self.side
    }

    /// The announcement was written, or, on the other side, read: the connection is
    /// multiplexed next.
    pub fn announced(self) -> (m: Multiplex)
        ensures
            m == self.side(),
    {
        self.side
    }
}

/// A connection that a party is to make: to whom, at which address, and the number that it
/// announces there.
pub struct Dial<A> {
    pub peer: u32,
    pub address: A,
    pub announce: u32,
    pub connection: Unannounced,
}

/// What the round with the king after connecting is made of: the value that a party
/// contributes, the channel, and how many parties may be missing.
pub struct GenesisRound {
    pub value: u32,
    pub channel: MultiplexedStreamID,
    pub threshold: usize,
}

/// What the king sends back in that round, to every party its own number; a client has
/// nothing to send, and receives.
pub struct GenesisAnswer {
    pub answer: Option<Vec<u32>>,
    pub channel: MultiplexedStreamID,
}

/// Whether the king has heard from these parties, of `n` in all, with no more than
/// `threshold` missing.
pub open spec fn attended(received: ReceivedShares<u32>, n: nat, threshold: nat) -> bool {
    &&& received.shares@.len() == received.parties@.len()
    &&& received.parties@.no_duplicates()
    &&& forall|i: int| 0 <= i < received.parties@.len() ==> #[trigger] received.parties@[i] < n
    &&& received.parties@.len() + threshold >= n
}

/// How long a party waits, in milliseconds, before it dials: time for the others to
/// listen.
pub const DIAL_DELAY_MILLIS: u64 = 200;

/// A party that is connecting to the others.
pub struct Connecting<A, S> {
    my_id: u32,
    n_parties: usize,
    peers: HashMap<u32, Peer<A, S>>,
    accepted: usize,
    dialed: usize,
    announced: Ghost<Seq<u32>>,
}

impl<A, S> Connecting<A, S> {
    #[verifier::type_invariant]
    spec fn consistent(self) -> bool {
        &&& self.my_id < self.n_parties
        &&& self.accepted <= inbound(self.my_id as nat)
        &&& self.dialed <= outbound(self.my_id as nat, self.n_parties as nat)
        &&& self.announced@.len() == self.accepted
        &&& linked(self.peers@) == reached(self.my_id as nat, self.dialed as nat, self.announced@)
        &&& fully_linked(self.peers@)
    }

    /// The party's own number.
    pub closed spec fn my_id(self) -> nat {
        self.my_id as nat
    }

    /// Number of parties.
    pub closed spec fn n_parties(self) -> nat {
        self.n_parties as nat
    }

    /// The parties, with the channels so far.
    pub closed spec fn peers(self) -> Map<u32, Peer<A, S>> {
        self.peers@
    }

    /// The numbers that the callers gave, one for each connection accepted so far.
    pub closed spec fn announced(self) -> Seq<u32> {
        self.announced@
    }

    /// How many connections were made so far.
    pub closed spec fn dialed(self) -> nat {
        self.dialed as nat
    }

    /// Whether the party has accepted and dialed as often as it does.
    pub open spec fn finished(self) -> bool {
        &&& self.announced().len() == inbound(self.my_id())
        &&& self.dialed() == outbound(self.my_id(), self.n_parties())
    }

    /// Whether another connection is to be accepted.
    pub fn must_accept(&self) -> (b: bool)
        ensures
            b <==> self.announced().len() < inbound(self.my_id()),
            !b ==> self.announced().len() == inbound(self.my_id()),
    {
        proof {
            use_type_invariant(self);
        }
        self.accepted < self.my_id as usize
    }

    /// The connection to accept next, unless all were accepted.
    pub fn next_accept(&self) -> (r: Option<Unannounced>)
        ensures
            match r {
                Some(connection) => self.announced().len() < inbound(self.my_id())
                    && connection.side() == accepting_side(),
                None => self.announced().len() == inbound(self.my_id()),
            },
    {
        if self.must_accept() {
            Some(Unannounced { side: Multiplex { channels: MULTIPLEXED_STREAMS, is_server: true } })
        } else {
            None
        }
    }

    /// The party to dial next, unless all were dialed. There must be a number for it.
    pub fn next_to_dial(&self) -> (r: Option<u32>)
        requires
            self.dialed() < outbound(self.my_id(), self.n_parties()) ==> target(
                self.my_id(),
                self.dialed(),
            ) <= u32::MAX,
        ensures
            match r {
                Some(id) => self.dialed() < outbound(self.my_id(), self.n_parties()) && id
                    == target(self.my_id(), self.dialed()),
                None => self.dialed() == outbound(self.my_id(), self.n_parties()),
            },
    {
        proof {
            use_type_invariant(self);
        }
        if self.dialed < self.n_parties - 1 - self.my_id as usize {
            Some(self.my_id + self.dialed as u32 + 1)
        } else {
            None
        }
    }

    /// Whether there is a party `id`.
    pub fn knows(&self, id: u32) -> (b: bool)
        ensures
            b <==> self.peers().contains_key(id),
    {
        self.peers.contains_key(&id)
    }

    /// A network of one party, which has nobody to connect to.
    fn alone() -> (r: Self)
        ensures
            r.my_id() == 0,
            r.n_parties() == 1,
            r.peers() == Map::<u32, Peer<A, S>>::empty(),
            r.announced() == Seq::<u32>::empty(),
            r.dialed() == 0,
    {
        let peers: HashMap<u32, Peer<A, S>> = HashMap::new();
        assert(linked(peers@) =~= reached(0, 0, Seq::empty()));
        Connecting {
            my_id: 0,
            n_parties: 1,
            peers,
            accepted: 0,
            dialed: 0,
            announced: Ghost(Seq::empty()),
        }
    }

    /// Party `peer_id` has called, and these are the channels to it.
    pub fn record_accepted(&mut self, peer_id: u32, streams: Vec<S>)
        requires
            old(self).announced().len() < inbound(old(self).my_id()),
            old(self).peers().contains_key(peer_id),
            streams@.len() == MULTIPLEXED_STREAMS,
        ensures
            final(self).my_id() == old(self).my_id(),
            final(self).n_parties() == old(self).n_parties(),
            final(self).dialed() == old(self).dialed(),
            final(self).announced() == old(self).announced().push(peer_id),
            final(self).peers() == old(self).peers().insert(
                peer_id,
                old(self).peers()[peer_id].with_streams(streams),
            ),
    {
        let mut before: Self = Connecting::alone();
        std::mem::swap(&mut before, self);
        proof {
            use_type_invariant(&before);
        }
        let ghost old_peers = before.peers@;
        let ghost heard = before.announced@.push(peer_id);
        let Connecting { my_id, n_parties, mut peers, accepted, dialed, announced } = before;
        set_streams(&mut peers, peer_id, streams);
        proof {
            assert forall|id: u32| #[trigger] heard.contains(id) <==> announced@.contains(id) || id
                == peer_id by {
                if announced@.contains(id) {
                    let i = choose|i: int| 0 <= i < announced@.len() && announced@[i] == id;
                    assert(heard[i] == id);
                }
                assert(heard.last() == peer_id);
            }
            assert(linked(peers@) =~= linked(old_peers).insert(peer_id));
            assert(linked(peers@) =~= reached(my_id as nat, dialed as nat, heard));
        }
        *self = Connecting {
            my_id,
            n_parties,
            peers,
            accepted: accepted + 1,
            dialed,
            announced: Ghost(heard),
        };
    }

    /// The party to dial was called, and these are the channels to it.
    pub fn record_dialed(&mut self, streams: Vec<S>)
        requires
            old(self).dialed() < outbound(old(self).my_id(), old(self).n_parties()),
            target(old(self).my_id(), old(self).dialed()) <= u32::MAX,
            old(self).peers().contains_key(target(old(self).my_id(), old(self).dialed()) as u32),
            streams@.len() == MULTIPLEXED_STREAMS,
        ensures
            final(self).my_id() == old(self).my_id(),
            final(self).n_parties() == old(self).n_parties(),
            final(self).dialed() == old(self).dialed() + 1,
            final(self).announced() == old(self).announced(),
            ({
                let id = target(old(self).my_id(), old(self).dialed()) as u32;
                final(self).peers() == old(self).peers().insert(
                    id,
                    old(self).peers()[id].with_streams(streams),
                )
            }),
    {
        let mut before: Self = Connecting::alone();
        std::mem::swap(&mut before, self);
        proof {
            use_type_invariant(&before);
        }
        let ghost old_peers = before.peers@;
        let Connecting { my_id, n_parties, mut peers, accepted, dialed, announced } = before;
        let id: u32 = my_id + dialed as u32 + 1;
        set_streams(&mut peers, id, streams);
        proof {
            assert(id == target(my_id as nat, dialed as nat));
            assert(linked(peers@) =~= linked(old_peers).insert(id));
            assert(linked(peers@) =~= reached(my_id as nat, (dialed + 1) as nat, announced@));
        }
        *self = Connecting { my_id, n_parties, peers, accepted, dialed: dialed + 1, announced };
    }
}

/// Gives a known party its channels.
fn set_streams<A, S>(peers: &mut HashMap<u32, Peer<A, S>>, id: u32, streams: Vec<S>)
    requires
        old(peers)@.contains_key(id),
    ensures
        final(peers)@ == old(peers)@.insert(id, old(peers)@[id].with_streams(streams)),
{
    if let Some(peer) = peers.remove(&id) {
        peers.insert(
            id,
            Peer { id: peer.id, listen_addr: peer.listen_addr, streams: Some(streams) },
        );
    }
}

impl<A: Copy, S> Connecting<A, S> {
    /// The connection to make next, unless all were made: to the party to dial, at the
    /// address where it listens, with the party's own number. There must be such a party.
    pub fn next_dial(&self) -> (r: Option<Dial<A>>)
        requires
            self.dialed() < outbound(self.my_id(), self.n_parties()) ==> target(
                self.my_id(),
                self.dialed(),
            ) <= u32::MAX && self.peers().contains_key(
                target(self.my_id(), self.dialed()) as u32,
            ),
        ensures
            match r {
                Some(dial) => {
                    &&& self.dialed() < outbound(self.my_id(), self.n_parties())
                    &&& dial.peer == target(self.my_id(), self.dialed())
                    &&& dial.address == self.peers()[dial.peer].listen_addr
                    &&& dial.announce == self.my_id()
                    &&& dial.connection.side() == dialing_side()
                },
                None => self.dialed() == outbound(self.my_id(), self.n_parties()),
            },
    {
        match self.next_to_dial() {
            Some(peer) => Some(
                Dial {
                    peer,
                    address: self.peers.get(&peer).unwrap().listen_addr,
                    announce: self.my_id,
                    connection: Unannounced {
                        side: Multiplex { channels: MULTIPLEXED_STREAMS, is_server: false },
                    },
                },
            ),
            None => None,
        }
    }
}

impl<L, A: Copy, S> MpcNetConnection<L, A, S> {
    /// Begins to connect to all the other parties. Hands out the listener, to accept
    /// from, and what the tasks report to, which knows of no channels yet.
    pub fn connect_to_all(&mut self) -> (r: (L, Connecting<A, S>))
        requires
            old(self).listener is Some,
            old(self).id < old(self).n_parties,
        ensures
            *final(self) == (MpcNetConnection { listener: None, ..*old(self) }),
            r.0 == old(self).listener->0,
            r.1.my_id() == old(self).id,
            r.1.n_parties() == old(self).n_parties,
            r.1.peers() == unlinked(old(self).peers@),
            r.1.announced() == Seq::<u32>::empty(),
            r.1.dialed() == 0,
    {
        let listener: L = self.listener.take().unwrap();
        let peers: HashMap<u32, Peer<A, S>> = unlink(&self.peers);
        assert(linked(peers@) =~= reached(self.id as nat, 0, Seq::empty()));
        let connecting = Connecting {
            my_id: self.id,
            n_parties: self.n_parties,
            peers,
            accepted: 0,
            dialed: 0,
            announced: Ghost(Seq::empty()),
        };
        (listener, connecting)
    }
}

impl<L, A, S> MpcNetConnection<L, A, S> {
    /// Both tasks have ended. Where they succeeded the channels are the party's own
    /// from now on, and the round with the king is next.
    pub fn connected(
        &mut self,
        tasks: Result<(), MpcNetError>,
        connecting: Connecting<A, S>,
    ) -> (r: Result<GenesisRound, MpcNetError>)
        ensures
            match tasks {
                Ok(_) => {
                    &&& r == Ok::<GenesisRound, MpcNetError>(
                        GenesisRound {
                            value: old(self).id,
                            channel: MultiplexedStreamID::Zero,
                            threshold: 0,
                        },
                    )
                    &&& final(self).id == old(self).id
                    &&& final(self).listener == old(self).listener
                    &&& final(self).n_parties == old(self).n_parties
                    &&& final(self).peers@ == connecting.peers()
                    &&& linked(final(self).peers@) == reached(
                        connecting.my_id(),
                        connecting.dialed(),
                        connecting.announced(),
                    )
                    &&& fully_linked(final(self).peers@)
                },
                Err(e) => r == Err::<GenesisRound, MpcNetError>(e) && *final(self) == *old(self),
            },
    {
        match tasks {
            Ok(_) => {
                proof {
                    use_type_invariant(&connecting);
                }
                let Connecting { peers, .. } = connecting;
                self.peers = peers;
                Ok(GenesisRound { value: self.id, channel: MultiplexedStreamID::Zero, threshold: 0 })
            },
            Err(e) => Err(e),
        }
    }

    /// The first half of the round is over: a party has sent its number, or, on the king,
    /// has received those of the parties, and these are what the king answers with. With
    /// nobody missing there is one for every party.
    pub fn round_gathered(
        &self,
        round: GenesisRound,
        received: Result<Option<ReceivedShares<u32>>, MpcNetError>,
    ) -> (r: Result<GenesisAnswer, MpcNetError>)
        ensures
            match (received, r) {
                (Ok(None), Ok(next)) => next.answer is None && next.channel == round.channel,
                (Ok(Some(rs)), Ok(next)) => {
                    &&& next.answer matches Some(answer) && answer@ == rs.shares@
                    &&& next.channel == round.channel
                    &&& attended(rs, self.n_parties as nat, round.threshold as nat)
                        && round.threshold == 0 ==> next.answer->0@.len() == self.n_parties
                },
                (Err(cause), Err(e)) => e == cause,
                _ => false,
            },
    {
        match received {
            Ok(None) => Ok(GenesisAnswer { answer: None, channel: round.channel }),
            Ok(Some(rs)) => {
                proof {
                    if attended(rs, self.n_parties as nat, 0) {
                        lemma_all_attended(rs, self.n_parties as nat);
                    }
                }
                Ok(GenesisAnswer { answer: Some(rs.shares), channel: round.channel })
            },
            Err(e) => Err(e),
        }
    }

    /// The second half of the round is over: the party has the king's answer, or, on the
    /// king, has sent it. There must be channels to every other party.
    pub fn round_answered(&self, reply: Result<u32, MpcNetError>) -> (r: Result<(), MpcNetError>)
        ensures
            match (reply, r) {
                (Err(cause), Err(e)) => e == cause,
                (Err(_), Ok(_)) => false,
                (Ok(_), Ok(_)) => self.peers@.dom().subset_of(linked(self.peers@).insert(self.id)),
                (Ok(_), Err(e)) => exists|id: u32|
                    {
                        &&& id != self.id
                        &&& #[trigger] self.peers@.contains_key(id)
                        &&& !linked(self.peers@).contains(id)
                        &&& e.text() == "Peer "@ + decimal(id as nat) + " has no stream"@
                    },
            },
    {
        match reply {
            Ok(_) => self.check_links(),
            Err(e) => Err(e),
        }
    }

    /// After the round with the king: there must be channels to every other party.
    pub fn check_links(&self) -> (r: Result<(), MpcNetError>)
        ensures
            match r {
                Ok(_) => self.peers@.dom().subset_of(linked(self.peers@).insert(self.id)),
                Err(e) => exists|id: u32|
                    {
                        &&& id != self.id
                        &&& #[trigger] self.peers@.contains_key(id)
                        &&& !linked(self.peers@).contains(id)
                        &&& e.text() == "Peer "@ + decimal(id as nat) + " has no stream"@
                    },
            },
    {
        for (id, peer) in it: self.peers.iter()
            invariant
                forall|i: int|
                    0 <= i < it.index() ==> *(#[trigger] it.seq()[i]).0 == self.id
                        || it.seq()[i].1.streams is Some,
        {
            if *id != self.id && peer.streams.is_none() {
                assert(self.peers@.contains_key(*id));
                return Err(MpcNetError::about("Peer ", *id, " has no stream"));
            }
        }
        Ok(())
    }
}

/// Of two parties the one with the smaller number dials the other one, and is not
/// dialed by it; nobody dials itself. The one that dials is the client of the multiplexed
/// connection, the other one the server, for the same number of channels.
pub proof fn law_each_pair_connects_once(a: nat, b: nat, n: nat)
    requires
        a < n,
        b < n,
    ensures
        dials(a, b, n) <==> a < b,
        a < b ==> side_of(a, b, n) == Some(
            Multiplex { channels: MULTIPLEXED_STREAMS, is_server: false },
        ) && side_of(b, a, n) == Some(
            Multiplex { channels: MULTIPLEXED_STREAMS, is_server: true },
        ),
        a == b ==> side_of(a, b, n) is None,
{
    if a < b {
        assert(b == target(a, (b - a - 1) as nat));
    }
}

/// A party accepts as many connections as there are parties that dial it.
pub proof fn law_accepts_match_dials(to: nat, n: nat)
    requires
        to < n,
    ensures
        Set::new(|from: nat| from < n && dials(from, to, n)).finite(),
        Set::new(|from: nat| from < n && dials(from, to, n)).len() == inbound(to),
{
    let callers = Set::new(|from: nat| from < n && dials(from, to, n));
    assert forall|from: nat| callers.contains(from) <==> from < to by {
        if from < n {
            law_each_pair_connects_once(from, to, n);
        }
    }
    assert(callers =~= Set::new(|from: nat| from < to));
    lemma_below(to);
}

proof fn lemma_below(k: nat)
    ensures
        Set::new(|i: nat| i < k).finite(),
        Set::new(|i: nat| i < k).len() == k,
    decreases k,
{
    let below = Set::new(|i: nat| i < k);
    if k == 0 {
        assert(below =~= Set::empty());
    } else {
        lemma_below((k - 1) as nat);
        assert(below =~= Set::new(|i: nat| i < k - 1).insert((k - 1) as nat));
    }
}

proof fn lemma_below_u32(k: nat)
    requires
        k <= 0x1_0000_0000,
    ensures
        Set::new(|i: u32| i < k).finite(),
        Set::new(|i: u32| i < k).len() == k,
    decreases k,
{
    let below = Set::new(|i: u32| i < k);
    if k == 0 {
        assert(below =~= Set::empty());
    } else {
        lemma_below_u32((k - 1) as nat);
        assert(below =~= Set::new(|i: u32| i < k - 1).insert((k - 1) as u32));
    }
}

/// A party that has dialed whom it dials, and that has heard from `my_id` different
/// parties with smaller numbers, has a connection with everybody but itself.
pub proof fn law_everyone_is_reached(my_id: nat, n: nat, announced: Seq<u32>)
    requires
        my_id < n <= 0x1_0000_0000,
        announced.len() == inbound(my_id),
        announced.no_duplicates(),
        forall|i: int| 0 <= i < announced.len() ==> announced[i] < my_id,
    ensures
        reached(my_id, outbound(my_id, n) as nat, announced) == Set::new(
            |id: u32| id < n && id != my_id,
        ),
{
    let smaller = Set::new(|i: u32| i < my_id);
    lemma_below_u32(my_id);
    announced.unique_seq_to_set();
    assert(announced.to_set().subset_of(smaller));
    vstd::set_lib::lemma_subset_equality(announced.to_set(), smaller);
    let everyone = Set::new(|id: u32| id < n && id != my_id);
    let there = reached(my_id, outbound(my_id, n) as nat, announced);
    assert forall|id: u32| there.contains(id) <==> everyone.contains(id) by {
        assert(announced.contains(id) <==> announced.to_set().contains(id));
        assert(announced.contains(id) <==> smaller.contains(id));
        if my_id < id < n {
            assert(id == target(my_id, (id - my_id - 1) as nat));
        }
    }
    assert(there =~= everyone);
}

/// With everybody but itself connected, a party of a network `0, 1, .., n - 1` passes
/// the check after connecting. Since a party has no channels to itself, it does not
/// count as initialised all the same.
pub proof fn law_connected_party_passes_check<A, S>(
    id: u32,
    n: nat,
    peers: Map<u32, Peer<A, S>>,
    announced: Seq<u32>,
)
    requires
        id < n <= 0x1_0000_0000,
        peers.dom() == Set::new(|k: u32| k < n),
        announced.len() == inbound(id as nat),
        announced.no_duplicates(),
        forall|i: int| 0 <= i < announced.len() ==> announced[i] < id,
        linked(peers) == reached(id as nat, outbound(id as nat, n) as nat, announced),
    ensures
        peers.dom().subset_of(linked(peers).insert(id)),
        linked(peers) != peers.dom(),
{
    law_everyone_is_reached(id as nat, n, announced);
    assert(peers.dom().contains(id));
    assert(!linked(peers).contains(id));
}

/// A party of a network `0, 1, .., n - 1` that passes the check, after it has dialed whom it
/// dials and accepted as many connections as it accepts, has heard from each party with a
/// smaller number exactly once, and from no other.
pub proof fn law_passing_party_heard_each_once<A, S>(
    id: u32,
    n: nat,
    peers: Map<u32, Peer<A, S>>,
    announced: Seq<u32>,
)
    requires
        id < n <= 0x1_0000_0000,
        peers.dom() == Set::new(|k: u32| k < n),
        announced.len() == inbound(id as nat),
        linked(peers) == reached(id as nat, outbound(id as nat, n) as nat, announced),
        peers.dom().subset_of(linked(peers).insert(id)),
    ensures
        announced.no_duplicates(),
        announced.to_set() == Set::new(|k: u32| k < id),
{
    let smaller = Set::new(|k: u32| k < id);
    lemma_below_u32(id as nat);
    assert forall|k: u32| smaller.contains(k) implies announced.to_set().contains(k) by {
        assert(peers.dom().contains(k));
        assert(linked(peers).insert(id).contains(k));
        assert(reached(id as nat, outbound(id as nat, n) as nat, announced).contains(k));
        assert(announced.contains(k));
    }
    announced.lemma_cardinality_of_set();
    vstd::set_lib::lemma_len_subset(smaller, announced.to_set());
    vstd::set_lib::lemma_subset_equality(smaller, announced.to_set());
    announced.lemma_no_dup_set_cardinality();
}

/// Whether `node` is a party of a network `0, 1, .., n - 1` that has dialed and accepted as
/// often as it does, and has passed the check.
pub open spec fn is_connected_node<L, A, S>(node: MpcNetConnection<L, A, S>, n: nat) -> bool {
    &&& node.id < n
    &&& node.peers@.dom() == Set::new(|k: u32| k < n)
    &&& fully_linked(node.peers@)
    &&& node.peers@.dom().subset_of(linked(node.peers@).insert(node.id))
    &&& exists|announced: Seq<u32>|
        announced.len() == inbound(node.id as nat) && linked(node.peers@) == #[trigger] reached(
            node.id as nat,
            outbound(node.id as nat, n) as nat,
            announced,
        )
}

/// A party that has connected has all the multiplexed channels to everybody else, and none
/// to itself.
pub proof fn law_connected_party_has_all_channels<L, A, S>(
    node: MpcNetConnection<L, A, S>,
    n: nat,
    k: u32,
)
    requires
        n <= 0x1_0000_0000,
        is_connected_node(node, n),
        k < n,
    ensures
        node.peers@[k].streams is Some <==> k != node.id,
        node.peers@[k].streams matches Some(streams) ==> streams@.len() == MULTIPLEXED_STREAMS,
{
    let id = node.id;
    let announced = choose|announced: Seq<u32>|
        announced.len() == inbound(id as nat) && linked(node.peers@) == #[trigger] reached(
            id as nat,
            outbound(id as nat, n) as nat,
            announced,
        );
    law_passing_party_heard_each_once(id, n, node.peers@, announced);
    assert(node.peers@.dom().contains(k));
    assert(linked(node.peers@).contains(k) <==> node.peers@[k].streams is Some);
    if linked(node.peers@).contains(id) {
        assert(reached(id as nat, outbound(id as nat, n) as nat, announced).contains(id));
        assert(announced.to_set().contains(id));
    }
}

/// The number of connections that the first `k` of `n` parties make.
pub open spec fn total_dialed(k: nat, n: nat) -> int
    decreases k,
{
    if k == 0 {
        0
    } else {
        total_dialed((k - 1) as nat, n) + outbound((k - 1) as nat, n)
    }
}

/// The number of connections that the first `k` parties accept.
pub open spec fn total_accepted(k: nat) -> int
    decreases k,
{
    if k == 0 {
        0
    } else {
        total_accepted((k - 1) as nat) + inbound((k - 1) as nat)
    }
}

proof fn lemma_totals(k: nat, n: nat)
    ensures
        2 * total_dialed(k, n) == k * (2 * n - k - 1),
        2 * total_accepted(k) == k * (k - 1),
    decreases k,
{
    if k > 0 {
        lemma_totals((k - 1) as nat, n);
        assert((k - 1) * (2 * n - (k - 1) - 1) + 2 * (n - 1 - (k - 1)) == k * (2 * n - k - 1))
            by (nonlinear_arith);
        assert((k - 1) * (k - 1 - 1) + 2 * (k - 1) == k * (k - 1)) by (nonlinear_arith);
    }
}

/// The parties of a network make one connection for each pair of them, and accept as many.
pub proof fn law_one_connection_for_each_pair(n: nat)
    ensures
        total_dialed(n, n) == n * (n - 1) / 2,
        total_accepted(n) == n * (n - 1) / 2,
{
    lemma_totals(n, n);
}

/// Connecting uses up the listener: it is gone when connecting begins, and still gone after
/// the tasks have ended, whether they succeeded or failed. `first` and `second` are the party
/// that the two calls change.
pub proof fn law_listener_is_used_up<L, A: Copy, S>(
    first: &mut MpcNetConnection<L, A, S>,
    begun: (L, Connecting<A, S>),
    second: &mut MpcNetConnection<L, A, S>,
    tasks: Result<(), MpcNetError>,
    connecting: Connecting<A, S>,
    ended: Result<GenesisRound, MpcNetError>,
)
    requires
        call_ensures(MpcNetConnection::<L, A, S>::connect_to_all, (first,), begun),
        *old(second) == *final(first),
        call_ensures(
            MpcNetConnection::<L, A, S>::connected,
            (second, tasks, connecting),
            ended,
        ),
    ensures
        final(first).listener is None,
        final(second).listener is None,
{
}

proof fn lemma_all_attended(received: ReceivedShares<u32>, n: nat)
    requires
        attended(received, n, 0),
    ensures
        n <= 0x1_0000_0000,
        received.parties@.len() == n,
        received.parties@.to_set() == Set::new(|id: u32| id < n),
{
    let parties = received.parties@;
    let k: nat = if n <= 0x1_0000_0000 {
        n
    } else {
        0x1_0000_0000
    };
    let everyone = Set::new(|id: u32| id < k);
    lemma_below_u32(k);
    parties.unique_seq_to_set();
    assert(parties.to_set().subset_of(everyone)) by {
        assert forall|id: u32| parties.to_set().contains(id) implies everyone.contains(id) by {
            let i = choose|i: int| 0 <= i < parties.len() && parties[i] == id;
            assert(parties[i] < n);
        }
    }
    vstd::set_lib::lemma_len_subset(parties.to_set(), everyone);
    vstd::set_lib::lemma_subset_equality(parties.to_set(), everyone);
}

/// What happens while the parties connect.
pub enum RoundEvent<L, A, S> {
    /// A party has its connections, and has this round to do.
    Connected { id: u32, round: GenesisRound },
    /// A party has sent a number to the king.
    Sent { id: u32, number: u32, channel: MultiplexedStreamID },
    /// The king has its numbers and begins to answer.
    Answered {
        king: MpcNetConnection<L, A, S>,
        round: GenesisRound,
        received: Result<Option<ReceivedShares<u32>>, MpcNetError>,
        next: GenesisAnswer,
    },
    /// A party returns without an error.
    Ready { node: MpcNetConnection<L, A, S>, reply: Result<u32, MpcNetError> },
}

/// Whether party `id` has done what it does to connect, and [`MpcNetConnection::connected`]
/// has given it this round.
pub open spec fn has_round<L, A, S>(id: u32, round: GenesisRound) -> bool {
    exists|node: &mut MpcNetConnection<L, A, S>, connecting: Connecting<A, S>|
        {
            &&& node.id == id
            &&& connecting.finished()
            &&& #[trigger] call_ensures(
                MpcNetConnection::<L, A, S>::connected,
                (node, Ok(()), connecting),
                Ok(round),
            )
        }
}

/// Whether a party has its connections, and has this round, before the event at place `i`.
pub open spec fn connected_before<L, A, S>(
    events: Seq<RoundEvent<L, A, S>>,
    i: int,
    id: u32,
    round: GenesisRound,
) -> bool {
    exists|k: int| 0 <= k < i && #[trigger] events[k] == (RoundEvent::<L, A, S>::Connected { id, round })
}

/// Whether a party has sent this number before the event at place `i`.
pub open spec fn sent_before<L, A, S>(
    events: Seq<RoundEvent<L, A, S>>,
    i: int,
    id: u32,
    number: u32,
    channel: MultiplexedStreamID,
) -> bool {
    exists|k: int|
        0 <= k < i && #[trigger] events[k] == (RoundEvent::<L, A, S>::Sent {
            id,
            number,
            channel,
        })
}

/// Whether the king begins to answer before the event at place `i`.
pub open spec fn answered_before<L, A, S>(events: Seq<RoundEvent<L, A, S>>, i: int) -> bool {
    exists|k: int| 0 <= k < i && #[trigger] events[k] is Answered
}

/// Whether the event at place `i` can happen there, in a network of `n` parties.
///
/// A party has a round to do when its tasks have ended, and sends what the round says. The
/// king answers with what [`MpcNetConnection::round_gathered`] makes of the numbers that it
/// received; it receives what the parties have sent, with no more of them missing than the
/// round allows. A party returns what [`MpcNetConnection::round_answered`] makes of the
/// reply, and a reply comes from a king that answers.
pub open spec fn can_happen<L, A, S>(events: Seq<RoundEvent<L, A, S>>, i: int, n: nat) -> bool {
    match events[i] {
        RoundEvent::Connected { id, round } => has_round::<L, A, S>(id, round),
        RoundEvent::Sent { id, number, channel } => exists|round: GenesisRound| #[trigger]
            connected_before(events, i, id, round) && number == round.value && channel
                == round.channel,
        RoundEvent::Answered { king, round, received, next } => {
            &&& connected_before(events, i, king.id, round)
            &&& call_ensures(
                MpcNetConnection::<L, A, S>::round_gathered,
                (&king, round, received),
                Ok(next),
            )
            &&& next.answer is Some
            &&& received matches Ok(Some(rs)) ==> attended(rs, n, round.threshold as nat)
                && forall|k: int|
                0 <= k < rs.parties@.len() ==> sent_before(
                    events,
                    i,
                    #[trigger] rs.parties@[k],
                    rs.shares@[k],
                    round.channel,
                )
        },
        RoundEvent::Ready { node, reply } => {
            &&& call_ensures(
                MpcNetConnection::<L, A, S>::round_answered,
                (&node, reply),
                Ok(()),
            )
            &&& reply is Ok ==> answered_before(events, i)
        },
    }
}

/// Whether every event can happen where it does.
pub open spec fn in_order<L, A, S>(events: Seq<RoundEvent<L, A, S>>, n: nat) -> bool {
    forall|i: int| #![trigger events[i]] 0 <= i < events.len() ==> can_happen(events, i, n)
}

proof fn lemma_round<L, A, S>(
    events: Seq<RoundEvent<L, A, S>>,
    n: nat,
    i: int,
    id: u32,
    round: GenesisRound,
)
    requires
        in_order(events, n),
        0 <= i <= events.len(),
        connected_before(events, i, id, round),
    ensures
        round.value == id,
        round.channel == MultiplexedStreamID::Zero,
        round.threshold == 0,
{
    let k = choose|k: int|
        0 <= k < i && #[trigger] events[k] == (RoundEvent::<L, A, S>::Connected { id, round });
    assert(can_happen(events, k, n));
    assert(has_round::<L, A, S>(id, round));
}

/// The king answers on the channel of the round, and with the numbers of all parties, each
/// of which has sent its own and has its connections.
pub proof fn law_king_answers_everyone<L, A, S>(
    events: Seq<RoundEvent<L, A, S>>,
    n: nat,
    i: int,
)
    requires
        in_order(events, n),
        0 <= i < events.len(),
        events[i] is Answered,
    ensures
        ({
            let next = events[i]->next;
            &&& next.channel == MultiplexedStreamID::Zero
            &&& next.answer matches Some(answer) && answer@.len() == n && answer@.to_set()
                == Set::new(|id: u32| id < n)
            &&& forall|id: u32|
                id < n ==> #[trigger] sent_before(events, i, id, id, MultiplexedStreamID::Zero)
        }),
{
    assert(can_happen(events, i, n));
    let round = events[i]->Answered_round;
    let received = events[i]->received;
    lemma_round(events, n, i, events[i]->king.id, round);
    assert(received is Ok && received->Ok_0 is Some);
    let rs = received->Ok_0->0;
    lemma_all_attended(rs, n);
    assert forall|k: int| 0 <= k < rs.parties@.len() implies rs.shares@[k]
        == #[trigger] rs.parties@[k] && sent_before(
        events,
        i,
        rs.parties@[k],
        rs.parties@[k],
        MultiplexedStreamID::Zero,
    ) by {
        let id = rs.parties@[k];
        let number = rs.shares@[k];
        assert(sent_before(events, i, id, number, round.channel));
        let s = choose|s: int|
            0 <= s < i && #[trigger] events[s] == (RoundEvent::<L, A, S>::Sent {
                id,
                number,
                channel: round.channel,
            });
        assert(can_happen(events, s, n));
        let own = choose|own: GenesisRound| #[trigger]
            connected_before(events, s, id, own) && number == own.value && round.channel
                == own.channel;
        lemma_round(events, n, s, id, own);
    }
    assert(rs.shares@ =~= rs.parties@);
    assert forall|id: u32| id < n implies #[trigger] sent_before(
        events,
        i,
        id,
        id,
        MultiplexedStreamID::Zero,
    ) by {
        assert(rs.parties@.to_set().contains(id));
        let k = choose|k: int| 0 <= k < rs.parties@.len() && rs.parties@[k] == id;
        assert(rs.parties@[k] == id);
    }
}

/// The round with the king is a barrier: no party returns without an error before every
/// party has its connections and has sent its number to the king.
pub proof fn law_round_is_a_barrier<L, A, S>(
    events: Seq<RoundEvent<L, A, S>>,
    n: nat,
    i: int,
    id: u32,
)
    requires
        in_order(events, n),
        0 <= i < events.len(),
        events[i] is Ready,
        id < n,
    ensures
        exists|round: GenesisRound| #[trigger]
            connected_before(events, i, id, round) && has_round::<L, A, S>(id, round),
        sent_before(events, i, id, id, MultiplexedStreamID::Zero),
{
    assert(can_happen(events, i, n));
    assert(answered_before(events, i));
    let a = choose|a: int| 0 <= a < i && #[trigger] events[a] is Answered;
    law_king_answers_everyone(events, n, a);
    assert(sent_before(events, a, id, id, MultiplexedStreamID::Zero));
    let sent = RoundEvent::<L, A, S>::Sent { id, number: id, channel: MultiplexedStreamID::Zero };
    let s = choose|s: int| 0 <= s < a && #[trigger] events[s] == sent;
    assert(events[s] == sent);
    assert(can_happen(events, s, n));
    let round = choose|round: GenesisRound| #[trigger]
        connected_before(events, s, id, round) && id == round.value;
    let here = RoundEvent::<L, A, S>::Connected { id, round };
    let c = choose|c: int| 0 <= c < s && #[trigger] events[c] == here;
    assert(events[c] == here);
    assert(can_happen(events, c, n));
    assert(connected_before(events, i, id, round));
}

/// Accepting a connection has failed; `cause` says why.
pub fn accept_failed(cause: &str) -> (e: MpcNetError)
    ensures
        e.text() == "Error accepting connection: "@ + cause@,
{
    let mut text: String = "Error accepting connection: ".to_owned();
    text.append(cause);
    MpcNetError::Generic(text)
}

/// Connecting to party `id` has failed; `cause` says why.
pub fn dial_failed(id: u32, cause: &str) -> (e: MpcNetError)
    ensures
        e.text() == "Error connecting to peer "@ + decimal(id as nat) + (": "@ + cause@),
{
    let mut text: String = ": ".to_owned();
    text.append(cause);
    MpcNetError::about("Error connecting to peer ", id, text.as_str())
}

/// What a party that is connecting is told: the channels to the party that it has dialed, or
/// those to a party that has called, with the number which that one gave.
pub enum Link<S> {
    Dialed(Vec<S>),
    Accepted(u32, Vec<S>),
}

/// Whether a party that is connecting was told this in a call that changed `c`.
pub open spec fn records<A, S>(c: &mut Connecting<A, S>, link: Link<S>) -> bool {
    match link {
        Link::Dialed(streams) => call_ensures(
            Connecting::<A, S>::record_dialed,
            (c, streams),
            (),
        ),
        Link::Accepted(peer, streams) => call_ensures(
            Connecting::<A, S>::record_accepted,
            (c, peer, streams),
            (),
        ),
    }
}

/// How many of these are connections that the party has made.
pub open spec fn made_in<S>(links: Seq<Link<S>>) -> nat
    decreases links.len(),
{
    if links.len() == 0 {
        0
    } else {
        made_in(links.drop_last()) + if links.last() is Dialed {
            1nat
        } else {
            0
        }
    }
}

/// The channels to party `peer` that party `id` was told of last.
pub open spec fn told_of<S>(links: Seq<Link<S>>, id: u32, peer: u32) -> Option<Vec<S>>
    decreases links.len(),
{
    if links.len() == 0 {
        None
    } else {
        match links.last() {
            Link::Dialed(streams) if peer == id + 1 + made_in(links.drop_last()) => Some(streams),
            Link::Accepted(caller, streams) if peer == caller => Some(streams),
            _ => told_of(links.drop_last(), id, peer),
        }
    }
}

/// Whether a party can be told all this: it knows every party that it dials and every one
/// that calls, and dials no more than there are.
pub open spec fn can_be_told<L, A, S>(
    before: MpcNetConnection<L, A, S>,
    links: Seq<Link<S>>,
) -> bool {
    &&& before.id < before.n_parties <= 0x1_0000_0000
    &&& forall|id: u32| id < before.n_parties ==> #[trigger] before.peers@.contains_key(id)
    &&& forall|k: int|
        0 <= k < links.len() ==> (#[trigger] links[k] matches Link::Accepted(caller, _)
            ==> before.peers@.contains_key(caller))
    &&& made_in(links) <= before.n_parties - 1 - before.id
}

proof fn lemma_made_in_grows<S>(links: Seq<Link<S>>, k: int)
    requires
        0 <= k <= links.len(),
    ensures
        made_in(links.take(k)) <= made_in(links),
        made_in(links.take(k)) <= k,
    decreases links.len(),
{
    if k == links.len() {
        assert(links.take(k) =~= links);
        if k > 0 {
            lemma_made_in_grows(links.drop_last(), k - 1);
            assert(links.drop_last().take(k - 1) =~= links.drop_last());
        }
    } else {
        lemma_made_in_grows(links.drop_last(), k);
        assert(links.drop_last().take(k) =~= links.take(k));
    }
}

proof fn lemma_state_after<L, A: Copy, S>(
    first: &mut MpcNetConnection<L, A, S>,
    listener: L,
    links: Seq<Link<S>>,
    calls: Seq<&mut Connecting<A, S>>,
    states: Seq<Connecting<A, S>>,
    k: int,
)
    requires
        call_ensures(MpcNetConnection::<L, A, S>::connect_to_all, (first,), (listener, states[0])),
        can_be_told(*old(first), links),
        states.len() == links.len() + 1,
        calls.len() == links.len(),
        forall|i: int|
            0 <= i < links.len() ==> {
                &&& records(calls[i], #[trigger] links[i])
                &&& *calls[i] == states[i]
                &&& *final(calls[i]) == states[i + 1]
            },
        0 <= k <= links.len(),
    ensures
        states[k].my_id() == old(first).id,
        states[k].n_parties() == old(first).n_parties,
        states[k].dialed() == made_in(links.take(k)),
        states[k].announced().len() == k - made_in(links.take(k)),
        states[k].peers().dom() == old(first).peers@.dom(),
        forall|id: u32| #[trigger]
            states[k].peers().contains_key(id) ==> {
                &&& states[k].peers()[id].id == old(first).peers@[id].id
                &&& states[k].peers()[id].listen_addr == old(first).peers@[id].listen_addr
                &&& states[k].peers()[id].streams == told_of(links.take(k), old(first).id, id)
            },
    decreases k,
{
    let before = *old(first);
    if k == 0 {
        assert(links.take(0) =~= Seq::<Link<S>>::empty());
        assert(states[0].peers().dom() =~= before.peers@.dom());
    } else {
        lemma_state_after(first, listener, links, calls, states, k - 1);
        lemma_made_in_grows(links, k);
        lemma_made_in_grows(links, k - 1);
        let was = states[k - 1];
        let is = states[k];
        let link = links[k - 1];
        assert(records(calls[k - 1], links[k - 1]));
        assert(*calls[k - 1] == was && *final(calls[k - 1]) == states[k - 1 + 1]);
        assert(links.take(k).drop_last() =~= links.take(k - 1));
        assert(links.take(k).last() == link);
        match link {
            Link::Dialed(streams) => {
                let to = target(was.my_id(), was.dialed()) as u32;
                assert(to == before.id + 1 + made_in(links.take(k - 1)));
                assert(before.peers@.contains_key(to));
                assert(before.peers@.dom().contains(to));
                assert(was.peers().dom().contains(to));
                assert(was.peers().contains_key(to));
                assert(is.peers().dom() =~= before.peers@.dom());
                assert forall|id: u32| #[trigger] is.peers().contains_key(id) implies {
                    &&& is.peers()[id].id == before.peers@[id].id
                    &&& is.peers()[id].listen_addr == before.peers@[id].listen_addr
                    &&& is.peers()[id].streams == told_of(links.take(k), before.id, id)
                } by {
                    assert(was.peers().contains_key(id));
                }
            },
            Link::Accepted(peer, streams) => {
                assert(links[k - 1] matches Link::Accepted(caller, _)
                    ==> before.peers@.contains_key(caller));
                assert(before.peers@.dom().contains(peer));
                assert(was.peers().dom().contains(peer));
                assert(was.peers().contains_key(peer));
                assert(is.peers().dom() =~= before.peers@.dom());
                assert forall|id: u32| #[trigger] is.peers().contains_key(id) implies {
                    &&& is.peers()[id].id == before.peers@[id].id
                    &&& is.peers()[id].listen_addr == before.peers@[id].listen_addr
                    &&& is.peers()[id].streams == told_of(links.take(k), before.id, id)
                } by {
                    assert(was.peers().contains_key(id));
                }
            },
        }
    }
}

/// At every moment a party dials the one whose number follows those that it has dialed, its
/// own being the first, until there is none; at the address that it knew for this party
/// before it began to connect; with its own number; and as the client of three channels.
pub proof fn law_every_dial_goes_to_its_party<L, A: Copy, S>(
    first: &mut MpcNetConnection<L, A, S>,
    listener: L,
    links: Seq<Link<S>>,
    calls: Seq<&mut Connecting<A, S>>,
    states: Seq<Connecting<A, S>>,
    k: int,
    r: Option<Dial<A>>,
    m: Multiplex,
)
    requires
        call_ensures(MpcNetConnection::<L, A, S>::connect_to_all, (first,), (listener, states[0])),
        can_be_told(*old(first), links),
        states.len() == links.len() + 1,
        calls.len() == links.len(),
        forall|i: int|
            0 <= i < links.len() ==> {
                &&& records(calls[i], #[trigger] links[i])
                &&& *calls[i] == states[i]
                &&& *final(calls[i]) == states[i + 1]
            },
        0 <= k <= links.len(),
        call_ensures(Connecting::<A, S>::next_dial, (&states[k],), r),
        r matches Some(dial) ==> call_ensures(Unannounced::announced, (dial.connection,), m),
    ensures
        r is Some <==> made_in(links.take(k)) < old(first).n_parties - 1 - old(first).id,
        r matches Some(dial) ==> {
            &&& dial.peer == old(first).id + 1 + made_in(links.take(k))
            &&& dial.address == old(first).peers@[dial.peer].listen_addr
            &&& dial.announce == old(first).id
            &&& m.channels == 3
            &&& !m.is_server
        },
{
    lemma_state_after(first, listener, links, calls, states, k);
    if let Some(dial) = r {
        assert(old(first).peers@.contains_key(dial.peer));
        assert(old(first).peers@.dom().contains(dial.peer));
        assert(states[k].peers().contains_key(dial.peer));
    }
}

/// At every moment a party waits for a call as long as fewer have called than there are
/// smaller numbers than its own, on its own listener, as the server of three channels.
pub proof fn law_every_smaller_number_is_awaited<L, A: Copy, S>(
    first: &mut MpcNetConnection<L, A, S>,
    listener: L,
    links: Seq<Link<S>>,
    calls: Seq<&mut Connecting<A, S>>,
    states: Seq<Connecting<A, S>>,
    k: int,
    r: Option<Unannounced>,
    m: Multiplex,
)
    requires
        call_ensures(MpcNetConnection::<L, A, S>::connect_to_all, (first,), (listener, states[0])),
        can_be_told(*old(first), links),
        states.len() == links.len() + 1,
        calls.len() == links.len(),
        forall|i: int|
            0 <= i < links.len() ==> {
                &&& records(calls[i], #[trigger] links[i])
                &&& *calls[i] == states[i]
                &&& *final(calls[i]) == states[i + 1]
            },
        0 <= k <= links.len(),
        call_ensures(Connecting::<A, S>::next_accept, (&states[k],), r),
        r matches Some(connection) ==> call_ensures(Unannounced::announced, (connection,), m),
        k - made_in(links.take(k)) <= old(first).id,
    ensures
        r is Some <==> k - made_in(links.take(k)) < old(first).id,
        r is Some ==> m.channels == 3 && m.is_server,
        old(first).listener matches Some(own) ==> listener == own,
{
    lemma_state_after(first, listener, links, calls, states, k);
}

/// A party that is connecting knows at every moment the parties that it knew before.
pub proof fn law_parties_stay_known<L, A: Copy, S>(
    first: &mut MpcNetConnection<L, A, S>,
    listener: L,
    links: Seq<Link<S>>,
    calls: Seq<&mut Connecting<A, S>>,
    states: Seq<Connecting<A, S>>,
    k: int,
    id: u32,
    known: bool,
    must_accept: bool,
    next: Option<u32>,
)
    requires
        call_ensures(MpcNetConnection::<L, A, S>::connect_to_all, (first,), (listener, states[0])),
        can_be_told(*old(first), links),
        states.len() == links.len() + 1,
        calls.len() == links.len(),
        forall|i: int|
            0 <= i < links.len() ==> {
                &&& records(calls[i], #[trigger] links[i])
                &&& *calls[i] == states[i]
                &&& *final(calls[i]) == states[i + 1]
            },
        0 <= k <= links.len(),
        call_ensures(Connecting::<A, S>::knows, (&states[k], id), known),
        call_ensures(Connecting::<A, S>::must_accept, (&states[k],), must_accept),
        call_ensures(Connecting::<A, S>::next_to_dial, (&states[k],), next),
    ensures
        known <==> old(first).peers@.contains_key(id),
        must_accept <==> k - made_in(links.take(k)) < old(first).id,
        next is Some <==> made_in(links.take(k)) < old(first).n_parties - 1 - old(first).id,
        next matches Some(to) ==> to == old(first).id + 1 + made_in(links.take(k)),
{
    lemma_state_after(first, listener, links, calls, states, k);
    assert(states[k].peers().dom().contains(id) <==> old(first).peers@.dom().contains(id));
}

/// After connecting a party knows the same parties as before, each under its number and at
/// its address, with the channels that it was told of last, and it contributes its own number
/// to the round with the king, on the first channel, with nobody missing.
pub proof fn law_connecting_keeps_the_parties<L, A: Copy, S>(
    first: &mut MpcNetConnection<L, A, S>,
    listener: L,
    links: Seq<Link<S>>,
    calls: Seq<&mut Connecting<A, S>>,
    states: Seq<Connecting<A, S>>,
    second: &mut MpcNetConnection<L, A, S>,
    r: Result<GenesisRound, MpcNetError>,
    id: u32,
)
    requires
        call_ensures(MpcNetConnection::<L, A, S>::connect_to_all, (first,), (listener, states[0])),
        can_be_told(*old(first), links),
        states.len() == links.len() + 1,
        calls.len() == links.len(),
        forall|i: int|
            0 <= i < links.len() ==> {
                &&& records(calls[i], #[trigger] links[i])
                &&& *calls[i] == states[i]
                &&& *final(calls[i]) == states[i + 1]
            },
        *old(second) == *final(first),
        call_ensures(MpcNetConnection::<L, A, S>::connected, (second, Ok(()), states.last()), r),
    ensures
        r matches Ok(round) && round.value == old(first).id && round.channel is Zero
            && round.threshold == 0,
        final(second).id == old(first).id,
        final(second).n_parties == old(first).n_parties,
        final(second).listener is None,
        final(second).peers@.contains_key(id) <==> old(first).peers@.contains_key(id),
        final(second).peers@.contains_key(id) ==> {
            &&& final(second).peers@[id].id == old(first).peers@[id].id
            &&& final(second).peers@[id].listen_addr == old(first).peers@[id].listen_addr
            &&& final(second).peers@[id].streams == told_of(links, old(first).id, id)
        },
{
    lemma_state_after(first, listener, links, calls, states, links.len() as int);
    assert(links.take(links.len() as int) =~= links);
    assert(final(second).peers@.dom().contains(id) <==> old(first).peers@.dom().contains(id));
}

/// Where the tasks have failed, connecting fails with their error, and the party is left as it
/// was. In the round with the king, the king answers with all that it received, a client
/// with nothing, on the channel of the round; and an error of either half is handed on.
pub proof fn law_errors_end_connecting<L, A, S>(
    node: &mut MpcNetConnection<L, A, S>,
    connecting: Connecting<A, S>,
    cause: MpcNetError,
    r: Result<GenesisRound, MpcNetError>,
    conn: MpcNetConnection<L, A, S>,
    round: GenesisRound,
    received: ReceivedShares<u32>,
    by_king: Result<GenesisAnswer, MpcNetError>,
    by_client: Result<GenesisAnswer, MpcNetError>,
    failed: Result<GenesisAnswer, MpcNetError>,
    ended: Result<(), MpcNetError>,
)
    requires
        call_ensures(MpcNetConnection::<L, A, S>::connected, (node, Err(cause), connecting), r),
        call_ensures(
            MpcNetConnection::<L, A, S>::round_gathered,
            (&conn, round, Ok(Some(received))),
            by_king,
        ),
        call_ensures(
            MpcNetConnection::<L, A, S>::round_gathered,
            (&conn, round, Ok(None)),
            by_client,
        ),
        call_ensures(
            MpcNetConnection::<L, A, S>::round_gathered,
            (&conn, round, Err(cause)),
            failed,
        ),
        call_ensures(MpcNetConnection::<L, A, S>::round_answered, (&conn, Err(cause)), ended),
    ensures
        r matches Err(e) && e == cause,
        *final(node) == *old(node),
        by_king matches Ok(next) && next.channel == round.channel && (next.answer matches Some(
            answer,
        ) && answer@ == received.shares@),
        by_client matches Ok(next) && next.channel == round.channel && next.answer is None,
        failed matches Err(e) && e == cause,
        ended matches Err(e) && e == cause,
{
}

/// The check after connecting fails exactly when some other party has no channels, and names
/// such a party by its number; the end of the round passes this on.
pub proof fn law_check_finds_missing_channels<L, A, S>(
    conn: MpcNetConnection<L, A, S>,
    r: Result<(), MpcNetError>,
    number: u32,
    ended: Result<(), MpcNetError>,
)
    requires
        call_ensures(MpcNetConnection::<L, A, S>::check_links, (&conn,), r),
        call_ensures(MpcNetConnection::<L, A, S>::round_answered, (&conn, Ok(number)), ended),
    ensures
        r is Ok <==> forall|id: u32| #[trigger]
            conn.peers@.contains_key(id) && id != conn.id ==> conn.peers@[id].streams is Some,
        ended is Ok <==> r is Ok,
        r matches Err(MpcNetError::Generic(text)) ==> exists|id: u32, digits: Seq<char>|
            {
                &&& #[trigger] conn.peers@.contains_key(id)
                &&& id != conn.id
                &&& conn.peers@[id].streams is None
                &&& text@ == "Peer "@ + digits + " has no stream"@
                &&& #[trigger] reading(digits) == id
            },
{
    let peers = conn.peers@;
    if r is Ok || ended is Ok {
        assert forall|id: u32| #[trigger] peers.contains_key(id) && id != conn.id implies peers[id].streams is Some by {
            assert(peers.dom().contains(id));
            assert(linked(peers).insert(conn.id).contains(id));
        }
    }
    if let Err(e) = r {
        let id = choose|id: u32|
            {
                &&& id != conn.id
                &&& #[trigger] peers.contains_key(id)
                &&& !linked(peers).contains(id)
                &&& e.text() == "Peer "@ + decimal(id as nat) + " has no stream"@
            };
        law_decimal_reads_back(id as nat);
        assert(peers.contains_key(id) && reading(decimal(id as nat)) == id);
    }
}

/// A failure to connect names the party by its number, and says why.
pub proof fn law_failures_say_who_and_why(
    id: u32,
    cause: &str,
    dialing: MpcNetError,
    accepting: MpcNetError,
)
    requires
        call_ensures(dial_failed, (id, cause), dialing),
        call_ensures(accept_failed, (cause,), accepting),
    ensures
        dialing matches MpcNetError::Generic(text) && exists|digits: Seq<char>|
            text@ == "Error connecting to peer "@ + digits + (": "@ + cause@)
                && #[trigger] reading(digits) == id,
        accepting matches MpcNetError::Generic(text) && text@ == "Error accepting connection: "@
            + cause@,
{
    law_decimal_reads_back(id as nat);
}

} // verus!
