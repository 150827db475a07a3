use xmip_core_library_net::http2::error::ErrorCode;
use xmip_core_library_net::http2::frame::{
    read, Frame, Kind, ReadFailure, DEFAULT_MAX_FRAME_SIZE, END_HEADERS, END_STREAM, PADDED,
    PRIORITY,
};

#[test]
fn the_header_is_length_type_flags_and_a_31_bit_stream() {
    let frame = Frame::new(Kind::Headers, END_HEADERS | END_STREAM, 3, b"abc".to_vec());
    let wire = frame.encode();
    assert_eq!(wire, [0, 0, 3, 1, 5, 0, 0, 0, 3, b'a', b'b', b'c']);
    let back = read(&wire[..], DEFAULT_MAX_FRAME_SIZE)
        .expect("read")
        .expect("one");
    assert_eq!(back.0, frame);
    assert_eq!(back.1, wire.len());
    let reserved = [0, 0, 0, 4, 0, 0x80, 0, 0, 0];
    let back = read(&reserved[..], 16_384).expect("read").expect("one");
    assert_eq!((back.0.kind, back.0.stream), (Kind::Settings, 0));
    assert!(read(&b""[..], 16_384).expect("clean").is_none());
    assert!(matches!(read(&wire[..4], 16_384), Err(ReadFailure::Net(_))));
}

#[test]
fn a_frame_over_the_maximum_is_a_frame_size_error() {
    let wire = Frame::new(Kind::Data, 0, 1, vec![0; 16_385]).encode();
    match read(&wire[..], DEFAULT_MAX_FRAME_SIZE) {
        Err(ReadFailure::Violation(violation)) => {
            assert_eq!(violation.code, ErrorCode::FrameSize);
            assert_eq!(violation.message, "a frame of 16385 octets, over the 16384 this side allows");
        }
        other => panic!("{other:?}"),
    }
    assert!(read(&wire[..], 16_385).is_ok());
}

#[test]
fn every_type_of_section_6_has_its_number() {
    for code in 0..=9 {
        assert_eq!(Kind::of(code).code(), code);
        assert!(!matches!(Kind::of(code), Kind::Unknown(_)));
    }
    assert_eq!(Kind::of(0xb), Kind::Unknown(0xb));
}

#[test]
fn the_control_frames_have_the_layouts_of_section_6() {
    assert_eq!(
        Frame::reset(5, ErrorCode::Cancel).encode(),
        [0, 0, 4, 3, 0, 0, 0, 0, 5, 0, 0, 0, 8]
    );
    assert_eq!(
        Frame::ping(*b"12345678", true).encode()[..9],
        [0, 0, 8, 6, 1, 0, 0, 0, 0]
    );
    let goaway = Frame::goaway(7, ErrorCode::Protocol, b"x");
    assert_eq!(
        goaway.encode(),
        [0, 0, 9, 7, 0, 0, 0, 0, 0, 0, 0, 0, 7, 0, 0, 0, 1, b'x']
    );
    assert_eq!((goaway.word(0), goaway.word(4)), (Some(7), Some(1)));
    assert_eq!(
        Frame::window_update(0, 1024).encode(),
        [0, 0, 4, 8, 0, 0, 0, 0, 0, 0, 0, 4, 0]
    );
}

#[test]
fn padding_and_priority_are_taken_off_what_they_surround() {
    let data = Frame::new(Kind::Data, PADDED, 1, vec![2, b'h', b'i', 0, 0]);
    assert_eq!(data.content().expect("content"), b"hi");
    let payload = vec![1, 0x80, 0, 0, 3, 16, 0x82, 0];
    let headers = Frame::new(Kind::Headers, PADDED | PRIORITY, 5, payload);
    assert_eq!(headers.content().expect("content"), [0x82]);
    let over = Frame::new(Kind::Data, PADDED, 1, vec![9, b'h']);
    assert_eq!(over.content().expect_err("over").code, ErrorCode::Protocol);
    let empty = Frame::new(Kind::Data, PADDED, 1, vec![]);
    assert_eq!(
        empty.content().expect_err("none").code,
        ErrorCode::FrameSize
    );
}

#[test]
fn a_frame_reads_back_as_it_was_written_after_what_came_before() {
    let mut wire = Vec::new();
    let first = Frame::window_update(3, 77);
    let second = Frame::new(Kind::Data, END_STREAM, 3, b"tail".to_vec());
    xmip_core_library_net::http2::frame::write(&mut wire, &first);
    xmip_core_library_net::http2::frame::write(&mut wire, &second);
    let (one, used) = read(&wire, DEFAULT_MAX_FRAME_SIZE).expect("read").expect("one");
    assert_eq!(one, first);
    let (two, rest) = read(&wire[used..], DEFAULT_MAX_FRAME_SIZE).expect("read").expect("two");
    assert_eq!(two, second);
    assert_eq!(used + rest, wire.len());
}
