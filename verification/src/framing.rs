//! How messages travel on a channel: each is a frame, the length of the message in
//! four bytes, most significant first, and then the message.

use crate::error::MpcNetError;
use tokio_util::bytes::{Bytes, BytesMut};
use tokio_util::codec::{Decoder, Encoder, LengthDelimitedCodec};
use vstd::prelude::*;

verus! {

/// Length of the longest message that a frame carries.
pub const MAX_FRAME_LENGTH: usize = 8_388_608;

/// The length `n` as it stands in front of a message.
pub open spec fn length_field(n: nat) -> Seq<u8> {
    seq![
        (n / 0x100_0000 % 0x100) as u8,
        (n / 0x1_0000 % 0x100) as u8,
        (n / 0x100 % 0x100) as u8,
        (n % 0x100) as u8,
    ]
}

/// The length that the first four bytes state.
pub open spec fn stated_length(bytes: Seq<u8>) -> nat {
    (bytes[0] * 0x100_0000 + bytes[1] * 0x1_0000 + bytes[2] * 0x100 + bytes[3]) as nat
}

/// The frame that carries a message.
pub open spec fn frame(payload: Seq<u8>) -> Seq<u8> {
    length_field(payload.len()) + payload
}

/// Whether the bytes begin with a length that no frame may have.
pub open spec fn oversized(bytes: Seq<u8>) -> bool {
    bytes.len() >= 4 && stated_length(bytes) > MAX_FRAME_LENGTH
}

/// Whether the bytes begin with a whole frame.
pub open spec fn whole(bytes: Seq<u8>) -> bool {
    bytes.len() >= 4 && stated_length(bytes) <= MAX_FRAME_LENGTH && bytes.len() >= 4 + stated_length(
        bytes,
    )
}

/// The message in the frame at the beginning of the bytes.
pub open spec fn first_payload(bytes: Seq<u8>) -> Seq<u8> {
    bytes.subrange(4, 4 + stated_length(bytes) as int)
}

/// A message that was received, and how many bytes its frame takes.
pub struct Frame {
    pub payload: Vec<u8>,
    pub consumed: usize,
}

impl Frame {
    /// Whether this is the frame at the beginning of the bytes.
    pub open spec fn leads(self, bytes: Seq<u8>) -> bool {
        whole(bytes) && self.payload@ == first_payload(bytes) && self.consumed == 4
            + stated_length(bytes)
    }
}

/// The error of `std::io`, which the codec's functions return.
#[verifier::external_type_specification]
#[verifier::external_body]
pub struct ExIoError(std::io::Error);

/// Encodes with `LengthDelimitedCodec::encode` of `tokio_util`, for a big-endian length
/// field of four bytes: a message of up to `MAX_FRAME_LENGTH` bytes, which is the
/// codec's default, becomes its frame, and a longer one an error.
#[verifier::external_body]
fn codec_encode(payload: &[u8]) -> (r: Result<Vec<u8>, std::io::Error>)
    ensures
        r is Ok <==> payload@.len() <= MAX_FRAME_LENGTH,
        r matches Ok(bytes) ==> bytes@ == frame(payload@),
{
    let mut codec = LengthDelimitedCodec::builder()
        .big_endian()
        .length_field_type::<u32>()
        .new_codec();
    let mut dst = BytesMut::new();
    codec.encode(Bytes::copy_from_slice(payload), &mut dst)?;
    Ok(dst.to_vec())
}

/// Decodes with `LengthDelimitedCodec::decode` of `tokio_util`, for a big-endian length
/// field of four bytes: a stated length above `MAX_FRAME_LENGTH` is an error, a whole
/// frame at the beginning is taken off, and otherwise there is nothing yet. A frame
/// comes with the number of bytes that are left behind it.
#[verifier::external_body]
fn codec_decode(bytes: &[u8]) -> (r: Result<Option<(Vec<u8>, usize)>, std::io::Error>)
    ensures
        match r {
            Ok(Some((payload, left))) => whole(bytes@) && payload@ == first_payload(bytes@) && left
                == bytes@.len() - 4 - stated_length(bytes@),
            Ok(None) => !whole(bytes@) && !oversized(bytes@),
            Err(_) => oversized(bytes@),
        },
{
    let mut codec = LengthDelimitedCodec::builder()
        .big_endian()
        .length_field_type::<u32>()
        .new_codec();
    let mut src = BytesMut::from(bytes);
    let payload = codec.decode(&mut src)?;
    Ok(payload.map(|p| (p.to_vec(), src.len())))
}

/// Decodes the last bytes of a stream with `decode_eof` of `tokio_util`'s
/// `LengthDelimitedCodec`, for a big-endian length field of four bytes: as `decode`,
/// but where there is no whole frame it is an error that bytes are left, those of a
/// length field that is complete not counted.
#[verifier::external_body]
fn codec_decode_eof(bytes: &[u8]) -> (r: Result<Option<(Vec<u8>, usize)>, std::io::Error>)
    ensures
        match r {
            Ok(Some((payload, left))) => whole(bytes@) && payload@ == first_payload(bytes@) && left
                == bytes@.len() - 4 - stated_length(bytes@),
            Ok(None) => !whole(bytes@) && !oversized(bytes@) && (bytes@.len() == 0 || bytes@.len()
                == 4),
            Err(_) => oversized(bytes@) || (!whole(bytes@) && bytes@.len() != 0 && bytes@.len()
                != 4),
        },
{
    let mut codec = LengthDelimitedCodec::builder()
        .big_endian()
        .length_field_type::<u32>()
        .new_codec();
    let mut src = BytesMut::from(bytes);
    let payload = codec.decode_eof(&mut src)?;
    Ok(payload.map(|p| (p.to_vec(), src.len())))
}

/// The frame of a message.
pub fn encode_frame(payload: &[u8]) -> (r: Result<Vec<u8>, MpcNetError>)
    ensures
        match r {
            Ok(bytes) => payload@.len() <= MAX_FRAME_LENGTH && bytes@ == frame(payload@),
            Err(e) => payload@.len() > MAX_FRAME_LENGTH && e.text() == "frame size too big"@,
        },
{
    match codec_encode(payload) {
        Ok(bytes) => Ok(bytes),
        Err(_) => Err(MpcNetError::of("frame size too big")),
    }
}

/// The frame at the beginning of what was received so far, if it is all there.
pub fn decode_frame(bytes: &[u8]) -> (r: Result<Option<Frame>, MpcNetError>)
    ensures
        match r {
            Ok(Some(first)) => first.leads(bytes@),
            Ok(None) => !whole(bytes@) && !oversized(bytes@),
            Err(e) => oversized(bytes@) && e.text() == "frame size too big"@,
        },
{
    match codec_decode(bytes) {
        Ok(Some((payload, left))) => Ok(Some(Frame { payload, consumed: bytes.len() - left })),
        Ok(None) => Ok(None),
        Err(_) => Err(MpcNetError::of("frame size too big")),
    }
}

/// The frame at the beginning of the last bytes of a stream. A stream that ends within
/// a message is an error; one that ends after the length of a message is not.
pub fn decode_last_frame(bytes: &[u8]) -> (r: Result<Option<Frame>, MpcNetError>)
    ensures
        match r {
            Ok(Some(first)) => first.leads(bytes@),
            Ok(None) => !whole(bytes@) && !oversized(bytes@) && (bytes@.len() == 0 || bytes@.len()
                == 4),
            Err(e) => if oversized(bytes@) {
                e.text() == "frame size too big"@
            } else {
                !whole(bytes@) && bytes@.len() != 0 && bytes@.len() != 4 && e.text()
                    == "bytes remaining on stream"@
            },
        },
{
    match codec_decode_eof(bytes) {
        Ok(Some((payload, left))) => Ok(Some(Frame { payload, consumed: bytes.len() - left })),
        Ok(None) => Ok(None),
        Err(_) => if codec_decode(bytes).is_err() {
            Err(MpcNetError::of("frame size too big"))
        } else {
            Err(MpcNetError::of("bytes remaining on stream"))
        },
    }
}

/// What a receiver makes of the next item of a channel: a message, an error of the
/// channel, or its end.
pub fn received(item: Option<Result<Vec<u8>, MpcNetError>>) -> (r: Result<Vec<u8>, MpcNetError>)
    ensures
        match item {
            Some(message) => r == message,
            None => r matches Err(e) && e.text() == "Stream died"@,
        },
{
    match item {
        Some(message) => message,
        None => Err(MpcNetError::of("Stream died")),
    }
}

proof fn lemma_length_field(n: nat)
    requires
        n <= 0xffff_ffff,
    ensures
        stated_length(length_field(n)) == n,
{
    assert(n / 0x100_0000 < 0x100);
    assert(n / 0x100_0000 % 0x100 == n / 0x100_0000);
    assert(n / 0x1_0000 == (n / 0x100_0000) * 0x100 + n / 0x1_0000 % 0x100);
    assert(n / 0x100 == (n / 0x1_0000) * 0x100 + n / 0x100 % 0x100);
}

/// A message comes out of its frame as it went in, whatever follows the frame.
pub proof fn law_frame_round_trip(payload: Seq<u8>, rest: Seq<u8>)
    requires
        payload.len() <= MAX_FRAME_LENGTH,
    ensures
        whole(frame(payload) + rest),
        !oversized(frame(payload) + rest),
        first_payload(frame(payload) + rest) == payload,
        (frame(payload) + rest).skip(4 + stated_length(frame(payload) + rest) as int) == rest,
{
    lemma_length_field(payload.len());
    let bytes = frame(payload) + rest;
    assert(stated_length(bytes) == stated_length(length_field(payload.len())));
    assert(first_payload(bytes) =~= payload);
    assert(bytes.skip(4 + payload.len() as int) =~= rest);
}

/// The frames of some messages, one after the other.
pub open spec fn frames(payloads: Seq<Seq<u8>>) -> Seq<u8>
    decreases payloads.len(),
{
    if payloads.len() == 0 {
        Seq::empty()
    } else {
        frame(payloads[0]) + frames(payloads.skip(1))
    }
}

/// The messages that a receiver takes off, one after the other.
pub open spec fn messages(bytes: Seq<u8>) -> Seq<Seq<u8>>
    decreases bytes.len(),
{
    if whole(bytes) {
        seq![first_payload(bytes)] + messages(bytes.skip(4 + stated_length(bytes) as int))
    } else {
        Seq::empty()
    }
}

/// Messages arrive in the order in which they were sent, all of them and no others.
pub proof fn law_messages_keep_their_order(payloads: Seq<Seq<u8>>)
    requires
        forall|i: int| 0 <= i < payloads.len() ==> (#[trigger] payloads[i]).len() <= MAX_FRAME_LENGTH,
    ensures
        messages(frames(payloads)) == payloads,
    decreases payloads.len(),
{
    if payloads.len() > 0 {
        let rest = payloads.skip(1);
        law_messages_keep_their_order(rest);
        law_frame_round_trip(payloads[0], frames(rest));
        assert(seq![payloads[0]] + rest =~= payloads);
    }
}

/// A receiver waits for the rest of a frame of which it has only a part.
pub proof fn law_part_of_frame_waits(payload: Seq<u8>, got: int)
    requires
        payload.len() <= MAX_FRAME_LENGTH,
        0 <= got < frame(payload).len(),
    ensures
        !whole(frame(payload).take(got)),
        !oversized(frame(payload).take(got)),
{
    lemma_length_field(payload.len());
    let bytes = frame(payload).take(got);
    if got >= 4 {
        assert(stated_length(bytes) == stated_length(length_field(payload.len())));
    }
}

/// A frame is its length in four bytes, most significant first, and then the message, byte
/// for byte; there is one for every message of up to eight mebibytes, and for no longer one.
pub proof fn law_frame_layout(payload: &[u8], r: Result<Vec<u8>, MpcNetError>)
    requires
        call_ensures(encode_frame, (payload,), r),
    ensures
        r is Ok <==> payload@.len() <= 8 * 1024 * 1024,
        r matches Ok(bytes) ==> {
            &&& bytes@.len() == 4 + payload@.len()
            &&& ((bytes@[0] * 256 + bytes@[1]) * 256 + bytes@[2]) * 256 + bytes@[3]
                == payload@.len()
            &&& forall|i: int| 0 <= i < payload@.len() ==> bytes@[4 + i] == #[trigger] payload@[i]
        },
        r matches Err(MpcNetError::Generic(text)) ==> text@ == "frame size too big"@,
{
    if payload@.len() <= MAX_FRAME_LENGTH {
        lemma_length_field(payload@.len());
    }
}

/// A receiver takes off exactly the first frame: the bytes behind the length that the first
/// four state, as many as that. It waits while there are fewer, and refuses a length above
/// eight mebibytes.
pub proof fn law_first_frame_is_taken(bytes: &[u8], r: Result<Option<Frame>, MpcNetError>)
    requires
        call_ensures(decode_frame, (bytes,), r),
    ensures
        ({
            let stated = ((bytes@[0] * 256 + bytes@[1]) * 256 + bytes@[2]) * 256 + bytes@[3];
            &&& r is Err <==> bytes@.len() >= 4 && stated > 8 * 1024 * 1024
            &&& r matches Err(MpcNetError::Generic(text)) ==> text@ == "frame size too big"@
            &&& r is Ok ==> (r->Ok_0 is Some <==> bytes@.len() >= 4 && bytes@.len() >= 4 + stated)
            &&& r matches Ok(Some(first)) ==> {
                &&& first.consumed == 4 + stated
                &&& first.payload@.len() == stated
                &&& forall|i: int|
                    0 <= i < stated ==> #[trigger] first.payload@[i] == bytes@[4 + i]
            }
        }),
{
}

/// The same at the end of a stream, where the beginning of a frame is an error, unless it is
/// just its length.
pub proof fn law_last_frame_is_taken(bytes: &[u8], r: Result<Option<Frame>, MpcNetError>)
    requires
        call_ensures(decode_last_frame, (bytes,), r),
    ensures
        ({
            let stated = ((bytes@[0] * 256 + bytes@[1]) * 256 + bytes@[2]) * 256 + bytes@[3];
            let large = bytes@.len() >= 4 && stated > 8 * 1024 * 1024;
            let there = bytes@.len() >= 4 && !large && bytes@.len() >= 4 + stated;
            &&& (r is Ok && r->Ok_0 is None) <==> !there && !large && (bytes@.len() == 0 || bytes@.len() == 4)
            &&& (r is Ok && r->Ok_0 is Some) <==> there
            &&& r matches Err(MpcNetError::Generic(text)) ==> text@ == if large {
                "frame size too big"@
            } else {
                "bytes remaining on stream"@
            }
            &&& r matches Ok(Some(last)) ==> {
                &&& last.consumed == 4 + stated
                &&& last.payload@.len() == stated
                &&& forall|i: int| 0 <= i < stated ==> #[trigger] last.payload@[i] == bytes@[4 + i]
            }
        }),
{
}

/// What is sent is what is received: a message that was framed comes out of the frame, with
/// whatever follows it left alone.
pub proof fn law_sent_is_received(
    payload: &[u8],
    sent: Vec<u8>,
    arrived: &[u8],
    rest: Seq<u8>,
    r: Result<Option<Frame>, MpcNetError>,
)
    requires
        call_ensures(encode_frame, (payload,), Ok(sent)),
        arrived@ == sent@ + rest,
        call_ensures(decode_frame, (arrived,), r),
    ensures
        r matches Ok(Some(first)) && first.payload@ == payload@ && first.consumed == sent@.len(),
{
    law_frame_round_trip(payload@, rest);
}

/// A receiver hands on what the channel gives, a message or an error; the end of the channel
/// is an error of its own.
pub proof fn law_end_of_channel_is_an_error(
    message: Result<Vec<u8>, MpcNetError>,
    given: Result<Vec<u8>, MpcNetError>,
    ended: Result<Vec<u8>, MpcNetError>,
)
    requires
        call_ensures(received, (Some(message),), given),
        call_ensures(received, (None,), ended),
    ensures
        given == message,
        ended matches Err(MpcNetError::Generic(text)) && text@ == "Stream died"@,
{
}

} // verus!
