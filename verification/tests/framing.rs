//! Frames and codec names.

use accesskit_remote::codec::Codec;
use accesskit_remote::codec::CodecError;
use accesskit_remote::framing::frame;
use accesskit_remote::framing::frame_into;
use accesskit_remote::framing::FrameError;
use accesskit_remote::framing::FrameReader;
use accesskit_remote::framing::DEFAULT_MAX_FRAME_LEN;
use accesskit_remote::framing::FRAME_HEADER_LEN;

#[test]
fn round_trip_single_chunk() {
    let framed = frame(b"hello").unwrap();
    let mut reader = FrameReader::new();
    reader.push(&framed);
    assert_eq!(reader.next_frame().unwrap(), Some(b"hello".to_vec()));
    assert_eq!(reader.next_frame().unwrap(), None);
}

#[test]
fn reassembles_from_single_byte_chunks() {
    let framed = frame(b"chunked payload").unwrap();
    let mut reader = FrameReader::new();
    for byte in &framed[..framed.len() - 1] {
        reader.push(std::slice::from_ref(byte));
        assert_eq!(reader.next_frame().unwrap(), None);
    }
    reader.push(&framed[framed.len() - 1..]);
    assert_eq!(reader.next_frame().unwrap(), Some(b"chunked payload".to_vec()));
}

#[test]
fn multiple_frames_in_one_chunk() {
    let mut bytes = frame(b"first").unwrap();
    bytes.extend_from_slice(&frame(b"second").unwrap());
    let mut reader = FrameReader::new();
    reader.push(&bytes);
    assert_eq!(reader.next_frame().unwrap(), Some(b"first".to_vec()));
    assert_eq!(reader.next_frame().unwrap(), Some(b"second".to_vec()));
    assert_eq!(reader.next_frame().unwrap(), None);
}

#[test]
fn frame_and_partial_next_in_one_chunk() {
    let mut bytes = frame(b"complete").unwrap();
    let second = frame(b"incomplete").unwrap();
    bytes.extend_from_slice(&second[..6]);
    let mut reader = FrameReader::new();
    reader.push(&bytes);
    assert_eq!(reader.next_frame().unwrap(), Some(b"complete".to_vec()));
    assert_eq!(reader.next_frame().unwrap(), None);
    reader.push(&second[6..]);
    assert_eq!(reader.next_frame().unwrap(), Some(b"incomplete".to_vec()));
}

#[test]
fn rejects_oversized_frame() {
    let mut reader = FrameReader::with_max_len(8);
    reader.push(&9u32.to_le_bytes());
    reader.push(&[0; 9]);
    assert_eq!(reader.next_frame(), Err(FrameError::TooLarge { len: 9, max: 8 }));
}

#[test]
fn rejects_empty_frame() {
    let mut reader = FrameReader::new();
    reader.push(&0u32.to_le_bytes());
    assert_eq!(reader.next_frame(), Err(FrameError::Empty));
}

#[test]
fn frame_rejects_empty_payload() {
    assert_eq!(frame(b""), Err(FrameError::Empty));
}

#[test]
fn a_frame_is_a_little_endian_length_and_the_payload() {
    assert_eq!(FRAME_HEADER_LEN, 4);
    assert_eq!(DEFAULT_MAX_FRAME_LEN, 64 * 1024 * 1024);
    assert_eq!(frame(b"ab").unwrap(), vec![2, 0, 0, 0, b'a', b'b']);
    let mut out = vec![7];
    frame_into(b"c", &mut out).unwrap();
    assert_eq!(out, vec![7, 1, 0, 0, 0, b'c']);
}

#[test]
fn a_frame_of_exactly_the_limit_is_accepted() {
    let mut reader = FrameReader::with_max_len(3);
    reader.push(&frame(b"abc").unwrap());
    assert_eq!(reader.next_frame().unwrap(), Some(b"abc".to_vec()));
}

#[test]
fn the_reader_does_not_get_past_a_bad_frame() {
    let mut reader = FrameReader::with_max_len(2);
    reader.push(&frame(b"abc").unwrap());
    let refused = reader.next_frame();
    assert_eq!(refused, Err(FrameError::TooLarge { len: 3, max: 2 }));
    assert_eq!(reader.next_frame(), refused);
}

#[test]
fn frame_errors_say_what_is_wrong() {
    assert_eq!(FrameError::Empty.message(), "zero-length frame");
    assert_eq!(
        FrameError::TooLarge { len: 9, max: 8 }.message(),
        "frame of 9 bytes exceeds maximum of 8"
    );
}

#[test]
fn name_round_trip() {
    assert_eq!(Codec::from_name(Codec::Json.name()), Some(Codec::Json));
    assert_eq!(Codec::from_name("bogus"), None);
}

#[test]
fn the_only_codec_is_called_json() {
    assert_eq!(Codec::Json.name(), "json");
    assert_eq!(Codec::HANDSHAKE, Codec::Json);
    assert_eq!(CodecError("why".to_owned()).message(), "codec error: why");
}

#[test]
fn a_stream_cut_anywhere_gives_its_payloads() {
    let payloads = [b"one".to_vec(), b"2".to_vec(), b"three".to_vec()];
    let mut stream = Vec::new();
    for payload in &payloads {
        frame_into(payload, &mut stream).unwrap();
    }
    // Part of one more frame.
    let whole = stream.len();
    stream.extend_from_slice(&frame(b"unfinished").unwrap()[..7]);
    for first in 0..=stream.len() {
        for second in first..=stream.len() {
            let mut reader = FrameReader::new();
            let mut returned = Vec::new();
            for chunk in [&stream[..first], &stream[first..second], &stream[second..]] {
                reader.push(chunk);
                while let Some(payload) = reader.next_frame().unwrap() {
                    returned.push(payload);
                }
            }
            assert_eq!(returned, payloads, "cut at {first} and {second} of {whole}");
            reader.push(b"inished");
            assert_eq!(reader.next_frame().unwrap(), Some(b"unfinished".to_vec()));
        }
    }
}
