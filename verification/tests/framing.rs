use void_engine::net::framing::{body_length, length_prefix, read_msg, write_msg, FrameError};

#[test]
fn round_trips_a_message() {
    let mut buf: Vec<u8> = Vec::new();
    write_msg(&mut buf, b"hello").unwrap();
    assert_eq!(buf.len(), 4 + 5, "u32 prefix then payload");
    let out = read_msg(&buf, 1024).unwrap().0;
    assert_eq!(out, b"hello");
}

#[test]
fn round_trips_back_to_back_messages() {
    let mut buf: Vec<u8> = Vec::new();
    write_msg(&mut buf, b"one").unwrap();
    write_msg(&mut buf, b"two!!").unwrap();
    let (first, used) = read_msg(&buf, 1024).unwrap();
    assert_eq!(first, b"one");
    assert_eq!(read_msg(&buf[used..], 1024).unwrap().0, b"two!!");
}

#[test]
fn empty_message_round_trips() {
    let mut buf: Vec<u8> = Vec::new();
    write_msg(&mut buf, b"").unwrap();
    assert_eq!(read_msg(&buf, 16).unwrap().0, b"");
}

#[test]
fn oversized_length_is_refused_before_allocating() {
    let mut bytes = u32::MAX.to_le_bytes().to_vec();
    bytes.extend_from_slice(b"nothing like that much data");
    let err = read_msg(&bytes, 4096).unwrap_err();
    assert_eq!(err, FrameError::OverCap { len: u32::MAX as usize, max_len: 4096 });
}

#[test]
fn a_message_exactly_at_the_cap_is_allowed() {
    let payload = vec![7u8; 64];
    let mut buf: Vec<u8> = Vec::new();
    write_msg(&mut buf, &payload).unwrap();
    assert_eq!(read_msg(&buf, 64).unwrap().0, payload);
    let mut buf: Vec<u8> = Vec::new();
    write_msg(&mut buf, &[7u8; 65]).unwrap();
    assert!(read_msg(&buf, 64).is_err());
}

#[test]
fn truncated_body_is_an_error_not_a_short_read() {
    let mut bytes = 10u32.to_le_bytes().to_vec();
    bytes.extend_from_slice(b"abc");
    let err = read_msg(&bytes, 1024).unwrap_err();
    assert_eq!(err, FrameError::Truncated);
}

#[test]
fn the_prefix_is_little_endian() {
    assert_eq!(length_prefix(0x0102).unwrap(), [2, 1, 0, 0]);
    assert_eq!(body_length(&[2, 1, 0, 0], 1024), Ok(0x0102));
    assert_eq!(
        length_prefix(1 << 32),
        Err(FrameError::TooLong { len: 1 << 32 }),
        "a length that four bytes cannot say is refused"
    );
}

#[test]
fn a_cut_prefix_is_an_error_too() {
    assert_eq!(read_msg(&[1, 0, 0], 16), Err(FrameError::Truncated));
    assert_eq!(FrameError::Truncated.message(), "early eof");
}
