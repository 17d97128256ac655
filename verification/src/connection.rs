//! One party's view of the network.

use crate::error::{decimal, law_decimal_reads_back, reading, MpcNetError};
use crate::peer::Peer;
use crate::stream_id::{MultiplexedStreamID, MULTIPLEXED_STREAMS};
use std::collections::HashMap;
use vstd::prelude::*;

verus! {

broadcast use vstd::std_specs::hash::group_hash_axioms;

/// A party: its number, the listener that it accepts connections from, the parties
/// of the network, itself among them, by their numbers, and how many there are.
pub struct MpcNetConnection<L, A, S> {
    pub id: u32,
    pub listener: Option<L>,
    pub peers: HashMap<u32, Peer<A, S>>,
    pub n_parties: usize,
}

/// The parties to which there are channels.
pub open spec fn linked<A, S>(peers: Map<u32, Peer<A, S>>) -> Set<u32> {
    Set::new(|id: u32| peers.contains_key(id) && peers[id].streams is Some)
}

/// Whether each party to which there are channels has all the multiplexed ones.
pub open spec fn fully_linked<A, S>(peers: Map<u32, Peer<A, S>>) -> bool {
    forall|id: u32| #[trigger]
        linked(peers).contains(id) ==> peers[id].streams->0@.len() == MULTIPLEXED_STREAMS
}

/// The same parties, without any channel.
pub open spec fn unlinked<A, S>(peers: Map<u32, Peer<A, S>>) -> Map<u32, Peer<A, S>> {
    peers.map_values(|p: Peer<A, S>| p.unlinked())
}

/// Copies the parties, without their channels.
pub(crate) fn unlink<A: Copy, S>(peers: &HashMap<u32, Peer<A, S>>) -> (r: HashMap<u32, Peer<A, S>>)
    ensures
        r@ == unlinked(peers@),
{
    let mut r: HashMap<u32, Peer<A, S>> = HashMap::new();
    for (id, peer) in it: peers.iter()
        invariant
            forall|k: u32| #[trigger] r@.contains_key(k) ==> peers@.contains_key(k) && r@[k] == peers@[k].unlinked(),
            forall|i: int| 0 <= i < it.index() ==> r@.contains_key(*(#[trigger] it.seq()[i]).0),
    {
        r.insert(*id, peer.clone());
    }
    r
}

impl<L, A, S> Default for MpcNetConnection<L, A, S> {
    /// Party 0 of a network without parties.
    fn default() -> (r: Self)
        ensures
            r.id == 0,
            r.listener is None,
            r.peers@ == Map::<u32, Peer<A, S>>::empty(),
            r.n_parties == 0,
    {
        MpcNetConnection { id: 0, listener: None, peers: HashMap::new(), n_parties: 0 }
    }
}

impl<L, A, S> MpcNetConnection<L, A, S> {
    /// Number of parties.
    pub fn n_parties(&self) -> (n: usize)
        ensures
            n == self.n_parties,
    {
        self.n_parties
    }

    /// The party's own number.
    pub fn party_id(&self) -> (id: u32)
        ensures
            id == self.id,
    {
        self.id
    }

    /// Whether there are channels to every party that the connection knows.
    pub fn is_init(&self) -> (b: bool)
        ensures
            b <==> linked(self.peers@) == self.peers@.dom(),
    {
        for (id, peer) in it: self.peers.iter()
            invariant
                forall|i: int| 0 <= i < it.index() ==> (#[trigger] it.seq()[i]).1.streams is Some,
        {
            if peer.streams.is_none() {
                assert(self.peers@.dom().contains(*id) && !linked(self.peers@).contains(*id));
                return false;
            }
        }
        assert(linked(self.peers@) =~= self.peers@.dom());
        true
    }

    /// The channel `sid` to party `id`.
    pub fn stream_to(&self, id: u32, sid: MultiplexedStreamID) -> (r: Result<&S, MpcNetError>)
        ensures
            match r {
                Ok(stream) => self.peers@.contains_key(id) && has_stream(
                    self.peers@[id].streams,
                    sid,
                ) && *stream == self.peers@[id].streams->0@[sid.position() as int],
                Err(e) => if self.peers@.contains_key(id) {
                    !has_stream(self.peers@[id].streams, sid) && e.text() == "Stream is None"@
                } else {
                    e.text() == "Peer "@ + decimal(id as nat) + " not found"@
                },
            },
    {
        match self.peers.get(&id) {
            Some(peer) => select_stream(&peer.streams, sid),
            None => Err(MpcNetError::about("Peer ", id, " not found")),
        }
    }
}

/// Whether channel `sid` is among these.
pub open spec fn has_stream<S>(streams: Option<Vec<S>>, sid: MultiplexedStreamID) -> bool {
    streams is Some && sid.position() < streams->0@.len()
}

/// Channel `sid` of a peer's channels.
pub fn select_stream<S>(streams: &Option<Vec<S>>, sid: MultiplexedStreamID) -> (r: Result<
    &S,
    MpcNetError,
>)
    ensures
        match r {
            Ok(stream) => has_stream(*streams, sid) && *stream
                == streams->0@[sid.position() as int],
            Err(e) => !has_stream(*streams, sid) && e.text() == "Stream is None"@,
        },
{
    match streams {
        Some(streams) if sid.index() < streams.len() => Ok(&streams[sid.index()]),
        _ => Err(MpcNetError::of("Stream is None")),
    }
}

/// Where a party has all the multiplexed channels to those that it is linked with, each
/// channel to each of these can be used.
pub proof fn law_every_channel_is_there<A, S>(
    peers: Map<u32, Peer<A, S>>,
    id: u32,
    sid: MultiplexedStreamID,
)
    requires
        fully_linked(peers),
        linked(peers).contains(id),
    ensures
        has_stream(peers[id].streams, sid),
{
}

/// A channel is found exactly where there is one: it is that of the party asked for, at the
/// place that its name says. Otherwise the error says whether there is no such party, by its
/// number, or no such channel.
pub proof fn law_channel_is_found_where_it_is<L, A, S>(
    conn: MpcNetConnection<L, A, S>,
    id: u32,
    sid: MultiplexedStreamID,
    r: Result<&S, MpcNetError>,
)
    requires
        call_ensures(MpcNetConnection::<L, A, S>::stream_to, (&conn, id, sid), r),
    ensures
        ({
            let at: int = match sid {
                MultiplexedStreamID::Zero => 0,
                MultiplexedStreamID::One => 1,
                MultiplexedStreamID::Two => 2,
            };
            let there = conn.peers@.contains_key(id) && (conn.peers@[id].streams matches Some(
                streams,
            ) && at < streams@.len());
            &&& r is Ok <==> there
            &&& r matches Ok(stream) ==> *stream == conn.peers@[id].streams->0@[at]
            &&& r matches Err(MpcNetError::Generic(text)) ==> if conn.peers@.contains_key(id) {
                text@ == "Stream is None"@
            } else {
                exists|digits: Seq<char>|
                    text@ == "Peer "@ + digits + " not found"@ && #[trigger] reading(digits) == id
            }
        }),
{
    law_decimal_reads_back(id as nat);
}

/// The same of the channels of a peer.
pub proof fn law_channel_is_selected_where_it_is<S>(
    streams: Option<Vec<S>>,
    sid: MultiplexedStreamID,
    r: Result<&S, MpcNetError>,
)
    requires
        call_ensures(select_stream::<S>, (&streams, sid), r),
    ensures
        ({
            let at: int = match sid {
                MultiplexedStreamID::Zero => 0,
                MultiplexedStreamID::One => 1,
                MultiplexedStreamID::Two => 2,
            };
            match streams {
                Some(streams) if at < streams@.len() => r matches Ok(stream) && *stream
                    == streams@[at],
                _ => r matches Err(MpcNetError::Generic(text)) && text@ == "Stream is None"@,
            }
        }),
{
}

/// A party is initialised exactly when it has channels to every party that it knows.
pub proof fn law_initialised_with_all_channels<L, A, S>(
    conn: MpcNetConnection<L, A, S>,
    b: bool,
)
    requires
        call_ensures(MpcNetConnection::<L, A, S>::is_init, (&conn,), b),
    ensures
        b <==> forall|id: u32| #[trigger]
            conn.peers@.contains_key(id) ==> conn.peers@[id].streams is Some,
{
    if forall|id: u32| #[trigger] conn.peers@.contains_key(id) ==> conn.peers@[id].streams is Some {
        assert(linked(conn.peers@) =~= conn.peers@.dom());
    }
    if b {
        assert forall|id: u32| #[trigger] conn.peers@.contains_key(id) implies conn.peers@[id].streams is Some by {
            assert(conn.peers@.dom().contains(id));
            assert(linked(conn.peers@).contains(id));
        }
    }
}

} // verus!
