//! The channels that one connection between two parties carries.

use vstd::prelude::*;

verus! {

/// Number of channels that are multiplexed over one connection.
pub const MULTIPLEXED_STREAMS: usize = 3;

/// Names one of the multiplexed channels.
#[derive(Clone, Copy, Debug, PartialEq, Eq, Hash, Structural)]
pub enum MultiplexedStreamID {
    Zero,
    One,
    Two,
}

impl MultiplexedStreamID {
    /// Position of the channel among those of a connection.
    pub open spec fn position(self) -> nat {
        match self {
            MultiplexedStreamID::Zero => 0,
            MultiplexedStreamID::One => 1,
            MultiplexedStreamID::Two => 2,
        }
    }

    /// Position of the channel among those of a connection.
    pub fn index(self) -> (i: usize)
        ensures
            i == self.position(),
    {
        match self {
            MultiplexedStreamID::Zero => 0,
            MultiplexedStreamID::One => 1,
            MultiplexedStreamID::Two => 2,
        }
    }

    /// Number of channels.
    pub fn channel_count() -> (n: usize)
        ensures
            n == MULTIPLEXED_STREAMS,
    {
        MULTIPLEXED_STREAMS
    }
}

/// Every channel has a place among the multiplexed ones, and no two share it.
pub proof fn law_channels_are_distinct(a: MultiplexedStreamID, b: MultiplexedStreamID)
    ensures
        a.position() < MULTIPLEXED_STREAMS,
        a.position() == b.position() ==> a == b,
{
}

/// The three channels stand in their order, and these are all the positions there are.
pub proof fn law_channels_stand_in_order(sid: MultiplexedStreamID, i: usize)
    requires
        call_ensures(MultiplexedStreamID::index, (sid,), i),
    ensures
        i < MULTIPLEXED_STREAMS == 3,
        i == 0 <==> sid is Zero,
        i == 1 <==> sid is One,
        i == 2 <==> sid is Two,
{
}

} // verus!
