//! What a party knows of another party.

use vstd::prelude::*;

verus! {

/// A party as another one sees it: who it is, where it listens, and the channels to
/// it once there are any. `A` is an address, `S` a channel.
pub struct Peer<A, S> {
    pub id: u32,
    pub listen_addr: A,
    pub streams: Option<Vec<S>>,
}

/// What the debug output of a peer shows: of the channels only whether there are any.
#[derive(Clone, Copy, Debug, PartialEq, Eq)]
pub struct PeerSummary<A> {
    pub id: u32,
    pub listen_addr: A,
    pub streams: bool,
}

impl<A, S> Peer<A, S> {
    /// The same peer without channels.
    pub open spec fn unlinked(self) -> Peer<A, S> {
        Peer { id: self.id, listen_addr: self.listen_addr, streams: None }
    }

    /// The same peer with these channels.
    pub open spec fn with_streams(self, streams: Vec<S>) -> Peer<A, S> {
        Peer { id: self.id, listen_addr: self.listen_addr, streams: Some(streams) }
    }
}

impl<A: Copy, S> Peer<A, S> {
    /// What the debug output shows.
    pub fn summary(&self) -> (s: PeerSummary<A>)
        ensures
            s == (PeerSummary {
                id: self.id,
                listen_addr: self.listen_addr,
                streams: self.streams is Some,
            }),
    {
        PeerSummary {
            id: self.id,
            listen_addr: self.listen_addr,
            streams: self.streams.is_some(),
        }
    }
}

impl<A: Copy, S> Clone for Peer<A, S> {
    /// Channels cannot be duplicated: the clone has none.
    fn clone(&self) -> (r: Self)
        ensures
            r == self.unlinked(),
    {
        Peer { id: self.id, listen_addr: self.listen_addr, streams: None }
    }
}

/// A clone is the same party at the same address, without channels; the summary tells the
/// two apart by these alone.
pub proof fn law_clone_keeps_who_and_where<A: Copy, S>(
    peer: Peer<A, S>,
    clone: Peer<A, S>,
    of_peer: PeerSummary<A>,
    of_clone: PeerSummary<A>,
)
    requires
        call_ensures(Peer::<A, S>::clone, (&peer,), clone),
        call_ensures(Peer::<A, S>::summary, (&peer,), of_peer),
        call_ensures(Peer::<A, S>::summary, (&clone,), of_clone),
    ensures
        clone.id == peer.id,
        clone.listen_addr == peer.listen_addr,
        clone.streams is None,
        of_peer.id == of_clone.id == peer.id,
        of_peer.listen_addr == of_clone.listen_addr,
        of_peer.listen_addr == peer.listen_addr,
        of_peer.streams <==> peer.streams is Some,
        !of_clone.streams,
{
}

} // verus!
