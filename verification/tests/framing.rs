use zksaas::error::MpcNetError;
use zksaas::framing::{
    decode_frame, decode_last_frame, encode_frame, received, MAX_FRAME_LENGTH,
};

fn error(text: &str) -> MpcNetError {
    MpcNetError::Generic(text.to_string())
}

#[test]
fn frame_is_length_then_message() {
    assert_eq!(encode_frame(&[7, 8, 9]).unwrap(), vec![0, 0, 0, 3, 7, 8, 9]);
    assert_eq!(encode_frame(&[]).unwrap(), vec![0, 0, 0, 0]);
    let long = vec![1u8; 0x01_0203];
    assert_eq!(encode_frame(&long).unwrap()[0..5], [0, 1, 2, 3, 1]);
}

#[test]
fn longest_message() {
    let longest = vec![5u8; MAX_FRAME_LENGTH];
    let bytes = encode_frame(&longest).unwrap();
    assert_eq!(bytes[0..4], [0, 0x80, 0, 0]);
    assert_eq!(bytes.len(), MAX_FRAME_LENGTH + 4);
    let frame = decode_frame(&bytes).unwrap().unwrap();
    assert_eq!(frame.payload, longest);

    let too_long = vec![5u8; MAX_FRAME_LENGTH + 1];
    assert_eq!(encode_frame(&too_long), Err(error("frame size too big")));
}

#[test]
fn message_comes_out_as_it_went_in() {
    let mut bytes = encode_frame(b"hello").unwrap();
    bytes.extend_from_slice(&encode_frame(b"king").unwrap());
    let first = decode_frame(&bytes).unwrap().unwrap();
    assert_eq!(first.payload, b"hello".to_vec());
    assert_eq!(first.consumed, 9);
    let second = decode_frame(&bytes[first.consumed..]).unwrap().unwrap();
    assert_eq!(second.payload, b"king".to_vec());
    assert_eq!(second.consumed, 8);
    assert!(decode_frame(&bytes[first.consumed + second.consumed..]).unwrap().is_none());
}

#[test]
fn receiver_waits_for_the_rest() {
    let bytes = encode_frame(b"hello").unwrap();
    for got in 0..bytes.len() {
        assert!(decode_frame(&bytes[..got]).unwrap().is_none());
    }
}

#[test]
fn oversized_length_is_an_error() {
    let too_big = error("frame size too big");
    assert_eq!(decode_frame(&[0, 0x80, 0, 1]).err(), Some(too_big.clone()));
    assert_eq!(decode_frame(&[0xff, 0xff, 0xff, 0xff, 1]).err(), Some(too_big.clone()));
    assert_eq!(decode_last_frame(&[0, 0x80, 0, 1]).err(), Some(too_big));
    assert!(decode_frame(&[0, 0x80, 0, 0]).unwrap().is_none());
}

#[test]
fn end_of_stream() {
    let bytes = encode_frame(b"hello").unwrap();
    let last = decode_last_frame(&bytes).unwrap().unwrap();
    assert_eq!(last.payload, b"hello".to_vec());
    assert_eq!(last.consumed, 9);
    assert!(decode_last_frame(&[]).unwrap().is_none());
    assert!(decode_last_frame(&bytes[..4]).unwrap().is_none());
    let remaining = error("bytes remaining on stream");
    for got in [1, 2, 3, 5, 6, 7, 8] {
        assert_eq!(decode_last_frame(&bytes[..got]).err(), Some(remaining.clone()));
    }
}

#[test]
fn received_item() {
    assert_eq!(received(Some(Ok(vec![1, 2]))), Ok(vec![1, 2]));
    assert_eq!(received(Some(Err(error("reset")))), Err(error("reset")));
    assert_eq!(received(None), Err(error("Stream died")));
}
