use io_drivers::FrameError;

#[test]
fn recv_io_requests() {
    const REQ: [u8; 14] = [
        6, 0, 0, 0, 0, 0, 0, 0, // Tag.
        0, // Payload.
        b'h', b'e', b'l', b'l', b'o',
    ];
    let reqs = io_drivers::recv_io_requests(&REQ).unwrap();
    assert!(reqs.len() == 1);
    let req = String::from_utf8(reqs[0].clone()).unwrap();
    assert_eq!(req, "hello");
}

#[test]
fn send_io_responses() {}

#[test]
fn frame_write_read_round_trip() {
    let payloads = vec![b"abc".to_vec(), b"d".to_vec(), b"hello world".to_vec()];
    let stream = io_drivers::send_io_responses(&payloads);
    let back = io_drivers::read_response_frames(&stream).unwrap();
    assert_eq!(back, payloads);
}

#[test]
fn truncated_stream_is_fatal() {
    // A frame claiming ten bytes of tag and payload, cut off after two.
    let mut stream = vec![10, 0, 0, 0, 0, 0, 0, 0];
    stream.push(0); // tag
    stream.push(b'x');
    let r = io_drivers::recv_io_requests(&stream);
    assert!(matches!(r, Err(FrameError::Truncated)));
}

#[test]
fn zero_length_frame_ends_stream() {
    let mut stream = vec![2, 0, 0, 0, 0, 0, 0, 0, 0, b'a'];
    stream.extend_from_slice(&[0u8; 8]); // explicit zero length
    stream.extend_from_slice(b"garbage after the end");
    let reqs = io_drivers::recv_io_requests(&stream).unwrap();
    assert_eq!(reqs, vec![b"a".to_vec()]);
}

#[test]
fn partial_length_ends_stream() {
    let reqs = io_drivers::recv_io_requests(&[1, 2, 3]).unwrap();
    assert!(reqs.is_empty());
}

#[test]
fn unknown_tag_is_fatal() {
    let stream = vec![2, 0, 0, 0, 0, 0, 0, 0, 7, b'a'];
    let r = io_drivers::recv_io_requests(&stream);
    assert!(matches!(r, Err(FrameError::UnknownTag)));
}
