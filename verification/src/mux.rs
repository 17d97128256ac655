//! Opening the channels of a new connection.

use crate::error::MpcNetError;
use crate::framing::{frames, law_messages_keep_their_order, messages, MAX_FRAME_LENGTH};
use vstd::prelude::*;

verus! {

/// What is to be done next to open the channels of a connection.
pub enum MuxStep<S> {
    /// Accept a channel that the other side opens.
    Accept(Multiplexing<S>),
    /// Open a channel to the other side.
    Connect(Multiplexing<S>),
    /// All channels are there.
    Done(Vec<S>),
}

/// A connection some of whose channels are open.
pub struct Multiplexing<S> {
    channels: usize,
    is_server: bool,
    opened: Vec<S>,
}

impl<S> MuxStep<S> {
    /// Whether this is the step after `opened` of `channels` channels.
    pub open spec fn follows(self, channels: nat, is_server: bool, opened: Seq<S>) -> bool {
        if opened.len() == channels {
            self matches MuxStep::Done(streams) && streams@ == opened
        } else if is_server {
            self matches MuxStep::Accept(state) && state.is(channels, is_server, opened)
        } else {
            self matches MuxStep::Connect(state) && state.is(channels, is_server, opened)
        }
    }
}

/// Begins to multiplex `channels` channels over a new connection. The side that
/// accepted the connection is the server, and accepts the channels too.
pub fn multiplex_stream<S>(channels: usize, is_server: bool) -> (r: MuxStep<S>)
    ensures
        r.follows(channels as nat, is_server, Seq::empty()),
{
    next_step(channels, is_server, Vec::new())
}

fn next_step<S>(channels: usize, is_server: bool, opened: Vec<S>) -> (r: MuxStep<S>)
    requires
        opened@.len() <= channels,
    ensures
        r.follows(channels as nat, is_server, opened@),
{
    if opened.len() == channels {
        MuxStep::Done(opened)
    } else if is_server {
        MuxStep::Accept(Multiplexing { channels, is_server, opened })
    } else {
        MuxStep::Connect(Multiplexing { channels, is_server, opened })
    }
}

impl<S> Multiplexing<S> {
    #[verifier::type_invariant]
    spec fn unfinished(self) -> bool {
        self.opened@.len() < self.channels
    }

    /// Whether this is the connection after `opened` of `channels` channels.
    pub closed spec fn is(self, channels: nat, is_server: bool, opened: Seq<S>) -> bool {
        self.channels == channels && self.is_server == is_server && self.opened@ == opened
    }

    /// Number of channels that are wanted.
    pub closed spec fn channels(self) -> nat {
        self.channels as nat
    }

    /// Whether this side accepts the channels.
    pub closed spec fn is_server(self) -> bool {
        self.is_server
    }

    /// The channels so far.
    pub closed spec fn opened(self) -> Seq<S> {
        self.opened@
    }

    fn with(self, stream: S) -> (r: MuxStep<S>)
        ensures
            r.follows(self.channels(), self.is_server(), self.opened().push(stream)),
    {
        proof {
            use_type_invariant(&self);
        }
        let Multiplexing { channels, is_server, mut opened } = self;
        opened.push(stream);
        next_step(channels, is_server, opened)
    }

    /// The other side has opened a channel, or will open no more.
    pub fn accepted(self, stream: Option<S>) -> (r: Result<MuxStep<S>, MpcNetError>)
        ensures
            match (stream, r) {
                (Some(stream), Ok(next)) => next.follows(
                    self.channels(),
                    self.is_server(),
                    self.opened().push(stream),
                ),
                (None, Err(e)) => e.text() == "Error accepting connection"@,
                _ => false,
            },
    {
        match stream {
            Some(stream) => Ok(self.with(stream)),
            None => Err(MpcNetError::of("Error accepting connection")),
        }
    }

    /// A channel to the other side was opened, or could not be.
    pub fn connected(self, stream: Result<S, MpcNetError>) -> (r: Result<MuxStep<S>, MpcNetError>)
        ensures
            match (stream, r) {
                (Ok(stream), Ok(next)) => next.follows(
                    self.channels(),
                    self.is_server(),
                    self.opened().push(stream),
                ),
                (Err(cause), Err(e)) => e == cause,
                _ => false,
            },
    {
        match stream {
            Ok(stream) => Ok(self.with(stream)),
            Err(e) => Err(e),
        }
    }
}

/// The two ends of a connection agree on the channels. Let one side open the channels
/// `opened` and the other one accept the channels `accepted`, the one opened as number `k`
/// being joined with the one accepted as number `k`. Once both are done they have lists of
/// the same length, and the channels at the same place are joined. If moreover no channel
/// is joined with two others, and no channel was accepted twice, those at different places
/// are not joined.
pub proof fn law_channels_pair_up<C, S>(
    joined: spec_fn(C, S) -> bool,
    channels: nat,
    opened: Seq<C>,
    accepted: Seq<S>,
    client: MuxStep<C>,
    server: MuxStep<S>,
)
    requires
        client.follows(channels, false, opened),
        server.follows(channels, true, accepted),
        client is Done,
        server is Done,
        forall|k: int| 0 <= k < channels ==> joined(#[trigger] opened[k], accepted[k]),
    ensures
        client->Done_0@.len() == channels,
        server->Done_0@.len() == channels,
        forall|i: int|
            0 <= i < channels ==> joined(#[trigger] client->Done_0@[i], server->Done_0@[i]),
        accepted.no_duplicates() && (forall|c: C, s: S, other: S| #[trigger]
            joined(c, s) && #[trigger] joined(c, other) ==> s == other) ==> forall|i: int, j: int|
            0 <= i < channels && 0 <= j < channels && i != j ==> !joined(
                #[trigger] client->Done_0@[i],
                #[trigger] server->Done_0@[j],
            ),
{
}

/// Messages stay on their channel. Let one side open the channels `opened` and the other
/// one accept the channels `accepted`, and let the bytes that are `written` to the channel
/// opened as number `k` be those that have `arrived` at the channel accepted as number `k`,
/// and the other way round. Once both are done, the messages that one side sends on the
/// channel at place `i` are those that the other side receives at place `i`, in the same
/// order, with nothing in between from another channel.
pub proof fn law_messages_stay_on_their_channel<C, S>(
    channels: nat,
    opened: Seq<C>,
    accepted: Seq<S>,
    client: MuxStep<C>,
    server: MuxStep<S>,
    written_by_client: spec_fn(C) -> Seq<u8>,
    arrived_at_client: spec_fn(C) -> Seq<u8>,
    written_by_server: spec_fn(S) -> Seq<u8>,
    arrived_at_server: spec_fn(S) -> Seq<u8>,
    i: int,
    payloads: Seq<Seq<u8>>,
)
    requires
        client.follows(channels, false, opened),
        server.follows(channels, true, accepted),
        client is Done,
        server is Done,
        forall|k: int|
            0 <= k < channels ==> arrived_at_server(accepted[k]) == written_by_client(
                #[trigger] opened[k],
            ) && arrived_at_client(opened[k]) == written_by_server(accepted[k]),
        0 <= i < channels,
        forall|k: int|
            0 <= k < payloads.len() ==> (#[trigger] payloads[k]).len() <= MAX_FRAME_LENGTH,
    ensures
        written_by_client(client->Done_0@[i]) == frames(payloads) ==> messages(
            arrived_at_server(server->Done_0@[i]),
        ) == payloads,
        written_by_server(server->Done_0@[i]) == frames(payloads) ==> messages(
            arrived_at_client(client->Done_0@[i]),
        ) == payloads,
{
    law_messages_keep_their_order(payloads);
    assert(client->Done_0@[i] == opened[i]);
}

/// Whether a channel was opened between these two steps.
pub open spec fn opens<S>(before: MuxStep<S>, stream: S, after: MuxStep<S>) -> bool {
    match before {
        MuxStep::Accept(state) => call_ensures(
            Multiplexing::<S>::accepted,
            (state, Some(stream)),
            Ok(after),
        ),
        MuxStep::Connect(state) => call_ensures(
            Multiplexing::<S>::connected,
            (state, Ok(stream)),
            Ok(after),
        ),
        MuxStep::Done(_) => false,
    }
}

proof fn lemma_steps_follow<S>(
    channels: usize,
    is_server: bool,
    steps: Seq<MuxStep<S>>,
    streams: Seq<S>,
    k: int,
)
    requires
        call_ensures(multiplex_stream::<S>, (channels, is_server), steps[0]),
        steps.len() == streams.len() + 1,
        forall|i: int| 0 <= i < streams.len() ==> opens(steps[i], #[trigger] streams[i], steps[i + 1]),
        0 <= k <= streams.len(),
    ensures
        k <= channels,
        steps[k].follows(channels as nat, is_server, streams.take(k)),
    decreases k,
{
    if k == 0 {
        assert(streams.take(0) =~= Seq::empty());
    } else {
        lemma_steps_follow(channels, is_server, steps, streams, k - 1);
        assert(opens(steps[k - 1], streams[k - 1], steps[k - 1 + 1]));
        assert(streams.take(k) =~= streams.take(k - 1).push(streams[k - 1]));
        match steps[k - 1] {
            MuxStep::Accept(state) => {
                assert(state.is(channels as nat, is_server, streams.take(k - 1)));
            },
            MuxStep::Connect(state) => {
                assert(state.is(channels as nat, is_server, streams.take(k - 1)));
            },
            MuxStep::Done(_) => {},
        }
    }
}

/// Multiplexing opens exactly as many channels as it is asked for, a server by accepting each
/// and a client by connecting each, and ends with all of them in the order in which they were
/// opened.
pub proof fn law_all_channels_are_opened<S>(
    channels: usize,
    is_server: bool,
    steps: Seq<MuxStep<S>>,
    streams: Seq<S>,
    k: int,
)
    requires
        call_ensures(multiplex_stream::<S>, (channels, is_server), steps[0]),
        steps.len() == streams.len() + 1,
        forall|i: int| 0 <= i < streams.len() ==> opens(steps[i], #[trigger] streams[i], steps[i + 1]),
        0 <= k <= streams.len(),
    ensures
        streams.len() <= channels,
        k < channels && is_server ==> steps[k] is Accept,
        k < channels && !is_server ==> steps[k] is Connect,
        k == channels ==> (steps[k] matches MuxStep::Done(opened) && opened@.len() == k && forall|
            i: int,
        |
            0 <= i < k ==> #[trigger] opened@[i] == streams[i]),
{
    lemma_steps_follow(channels, is_server, steps, streams, k);
    lemma_steps_follow(channels, is_server, steps, streams, streams.len() as int);
}

/// Multiplexing ends with an error when a channel cannot be opened: a client with the cause,
/// a server with one that says so.
pub proof fn law_missing_channel_is_an_error<S>(
    state: Multiplexing<S>,
    cause: MpcNetError,
    accepted: Result<MuxStep<S>, MpcNetError>,
    connected: Result<MuxStep<S>, MpcNetError>,
)
    requires
        call_ensures(Multiplexing::<S>::accepted, (state, None), accepted),
        call_ensures(Multiplexing::<S>::connected, (state, Err(cause)), connected),
    ensures
        accepted matches Err(MpcNetError::Generic(text)) && text@ == "Error accepting connection"@,
        connected matches Err(e) && e == cause,
{
}

} // verus!
