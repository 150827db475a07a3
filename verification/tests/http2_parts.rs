use std::io::Read;

use xmip_core_library_net::http::response::Response;
use xmip_core_library_net::http::Request;
use xmip_core_library_net::http2::error::{ErrorCode, Violation};
use xmip_core_library_net::http2::frame::{MAX_FRAME_SIZE_LIMIT, MAX_STREAM_ID};
use xmip_core_library_net::http2::message::{
    check, request_fields, request_of, response_fields, response_of,
};
use xmip_core_library_net::http2::preface::{preface, sniff, Replayed};
use xmip_core_library_net::http2::settings::Settings;
use xmip_core_library_net::http2::stream::{State, Stream};
use xmip_core_library_net::http2::window::Window;
use xmip_core_library_net::NetError;

fn fields(pairs: &[(&str, &str)]) -> Vec<(String, String)> {
    pairs.iter().map(|&(n, v)| (n.to_string(), v.to_string())).collect()
}

#[test]
fn every_code_of_section_7_reads_back_as_itself() {
    for code in 0..=0xd {
        assert_eq!(ErrorCode::of(code).code(), code);
        assert!(!matches!(ErrorCode::of(code), ErrorCode::Unknown(_)));
    }
    assert_eq!(ErrorCode::of(0x42), ErrorCode::Unknown(0x42));
    let said = NetError::from(Violation::frame_size("a PING of 7 octets"));
    assert!(said.message.contains("FrameSize (0x6)"), "{}", said.message);
}

#[test]
fn an_unknown_code_is_said_with_its_number() {
    let said = NetError::from(Violation::new(ErrorCode::Unknown(0x42), "odd"));
    assert_eq!(said.message, "HTTP/2 Unknown(66) (0x42): odd");
}

#[test]
fn a_parameter_is_a_16_bit_identifier_and_a_32_bit_value() {
    let ours = Settings::ours().encode();
    assert_eq!(ours, [0, 2, 0, 0, 0, 0, 0, 3, 0, 0, 0, 100, 0, 6, 0, 1, 0, 0]);
    let mut read = Settings::default();
    read.apply(&ours, false).expect("applied");
    assert_eq!(read, Settings::ours());
    assert!(Settings::default().encode().is_empty());
}

#[test]
fn an_unknown_identifier_is_ignored_and_a_bad_value_refused() {
    let mut settings = Settings::default();
    settings.apply(&[0, 0x9, 0, 0, 0, 1], true).expect("ignored");
    assert_eq!(settings, Settings::default());
    let refused = [
        (&[0, 2, 0, 0, 0, 2][..], ErrorCode::Protocol, false),
        (&[0, 2, 0, 0, 0, 1], ErrorCode::Protocol, true),
        (&[0, 4, 0x80, 0, 0, 0], ErrorCode::FlowControl, false),
        (&[0, 5, 0, 0, 0x3f, 0xff], ErrorCode::Protocol, false),
        (&[0, 5, 0x01, 0, 0, 0], ErrorCode::Protocol, false),
        (&[0, 4, 0, 0, 0], ErrorCode::FrameSize, false),
    ];
    for (payload, code, client) in refused {
        let failed = Settings::default().apply(payload, client).expect_err("refused");
        assert_eq!(failed.code, code, "{payload:?}");
    }
    let mut largest = Settings::default();
    largest.apply(&[0, 5, 0, 0xff, 0xff, 0xff], false).expect("2^24 - 1");
    assert_eq!(largest.max_frame_size, MAX_FRAME_SIZE_LIMIT);
}

#[test]
fn settings_announced_and_applied_are_the_settings() {
    let mut ours = Settings::ours();
    ours.header_table_size = 0;
    ours.initial_window_size = 1 << 20;
    ours.max_frame_size = 1 << 15;
    let mut read = Settings::default();
    read.apply(&ours.encode(), false).expect("applied");
    assert_eq!(read, ours);
}

#[test]
fn a_stream_closes_when_both_sides_have_ended_it() {
    let open = State::Open;
    assert_eq!(open.ended_locally(), State::HalfClosedLocal);
    assert_eq!(open.ended_remotely(), State::HalfClosedRemote);
    assert_eq!(open.ended_locally().ended_remotely(), State::Closed);
    assert_eq!(open.ended_remotely().ended_locally(), State::Closed);
    assert!(State::HalfClosedLocal.receiving() && !State::HalfClosedLocal.sending());
    assert!(State::HalfClosedRemote.sending() && !State::HalfClosedRemote.receiving());
    assert!(!State::Closed.sending() && !State::Closed.receiving());
}

#[test]
fn a_1xx_is_passed_over_the_head_kept_and_trailers_end_the_stream() {
    let mut stream = Stream::new(10, 10);
    stream.headers(fields(&[(":status", "100")]), false).expect("1xx");
    assert!(stream.head.is_none());
    stream.headers(fields(&[(":status", "200")]), false).expect("head");
    let middle = stream.headers(fields(&[("x", "1")]), false);
    assert_eq!(middle.expect_err("unended").code, ErrorCode::Protocol);
    stream.headers(fields(&[("grpc-status", "0")]), true).expect("trailers");
    assert_eq!(stream.trailers, fields(&[("grpc-status", "0")]));
    assert!(stream.finished());
    let late = stream.headers(fields(&[("x", "1")]), true);
    assert_eq!(late.expect_err("closed").code, ErrorCode::StreamClosed);
}

#[test]
fn a_window_is_taken_given_back_and_never_overrun() {
    let mut window = Window::new(10);
    window.take(10).expect("all of it");
    assert_eq!(window.available(), 0);
    assert_eq!(window.take(1).expect_err("overrun").code, ErrorCode::FlowControl);
    window.grant(4).expect("granted");
    assert_eq!(window.available(), 4);
    assert_eq!(window.grant(0).expect_err("zero").code, ErrorCode::Protocol);
    let mut full = Window::new(MAX_STREAM_ID);
    assert_eq!(full.grant(1).expect_err("over").code, ErrorCode::FlowControl);
}

#[test]
fn a_smaller_initial_window_can_take_a_stream_below_zero() {
    let mut window = Window::new(100);
    window.take(80).expect("taken");
    window.shift(-50).expect("shifted");
    assert_eq!(window.available(), 0);
    window.grant(40).expect("granted");
    assert_eq!(window.available(), 10);
}

#[test]
fn a_request_travels_as_pseudo_fields_then_its_own_in_lowercase() {
    let request = Request::new("POST", "/orders.OrderService/Get")
        .query("a", "b c")
        .header("Host", "example:50051")
        .header("Content-Type", "application/grpc")
        .header("Connection", "keep-alive")
        .header("TE", "trailers");
    let head = request_fields("https", &request);
    assert_eq!(
        head,
        fields(&[
            (":method", "POST"),
            (":scheme", "https"),
            (":authority", "example:50051"),
            (":path", "/orders.OrderService/Get?a=b%20c"),
            ("content-type", "application/grpc"),
            ("te", "trailers"),
        ])
    );
    check(&head, 4096).expect("well formed");
    let back = request_of(head, Vec::new()).expect("read");
    assert_eq!(back.path, "/orders.OrderService/Get");
    assert_eq!(back.query_value("a"), Some("b c"));
    assert_eq!(back.header_value("host"), Some("example:50051"));
}

#[test]
fn a_malformed_head_is_refused() {
    assert!(check(&fields(&[("Upper", "x")]), 4096).is_err());
    assert!(check(&fields(&[("a", "1"), (":path", "/")]), 4096).is_err());
    assert!(check(&fields(&[("a", "1")]), 10).is_err());
    assert!(request_of(fields(&[(":method", "GET")]), Vec::new()).is_err());
    let head = fields(&[(":method", "GET"), (":scheme", "http"), (":path", "/"), (":status", "200")]);
    assert!(request_of(head, Vec::new()).is_err());
    let lying = fields(&[(":method", "PUT"), (":scheme", "http"), (":path", "/"), ("content-length", "3")]);
    assert!(request_of(lying, b"ab".to_vec()).is_err());
    assert!(response_of(fields(&[(":status", "2000")]), Vec::new(), Vec::new()).is_err());
    let answer = response_of(fields(&[(":status", "404")]), Vec::new(), Vec::new());
    assert_eq!(answer.expect("read").reason, "Not Found");
}

#[test]
fn the_faults_of_a_head_are_said() {
    let late = check(&fields(&[("a", "1"), (":path", "/")]), 4096).expect_err("late");
    assert_eq!(late.message, ":path after a regular field");
    let upper = check(&fields(&[("Upper", "x")]), 4096).expect_err("upper");
    assert_eq!(upper.message, "a field name \"Upper\"");
    let large = check(&fields(&[("a", "1")]), 10).expect_err("large");
    assert_eq!(large.message, "a header list of 34 octets, over the 10 announced");
}

/// What was taken first, handed out again a few octets at a time, then
/// the rest of the connection.
fn read_again(first: Vec<u8>, mut rest: &[u8]) -> Vec<u8> {
    let mut replayed = Replayed::new(first);
    let mut again = Vec::new();
    while let Some(piece) = replayed.replay(5) {
        assert!(piece.len() <= 5);
        again.extend_from_slice(&piece);
    }
    rest.read_to_end(&mut again).expect("read");
    again
}

#[test]
fn the_preface_is_told_from_a_request_line_and_both_are_read_again() {
    let mut wire = preface().to_vec();
    wire.extend_from_slice(b"\0\0\0\x04");
    let mut reader = &wire[..];
    let (h2, first) = sniff(&mut reader).expect("sniffed");
    assert!(h2);
    let again = read_again(first, reader);
    assert_eq!(again, wire);

    let request = b"GET / HTTP/1.1\r\n\r\n";
    let mut reader = &request[..];
    let (h2, first) = sniff(&mut reader).expect("sniffed");
    assert!(!h2);
    assert!(!first.is_empty() && request.starts_with(&first));
    let again = read_again(first, reader);
    assert_eq!(again, request);

    let (h2, first) = sniff(&mut &b"PRI * HTTP/1.1"[..]).expect("sniffed");
    assert!(!h2);
    assert_eq!(first, b"PRI * HTTP/1.1");
    assert!(sniff(&mut &b""[..]).is_err());
}

#[test]
fn the_preface_is_twenty_four_octets_and_wants_what_is_missing() {
    assert_eq!(preface(), b"PRI * HTTP/2.0\r\n\r\nSM\r\n\r\n");
    assert_eq!(xmip_core_library_net::http2::preface::wanted(b"PRI"), 21);
    assert_eq!(xmip_core_library_net::http2::preface::wanted(b"GET"), 0);
    assert_eq!(xmip_core_library_net::http2::preface::wanted(preface()), 0);
}

#[test]
fn an_answer_travels_as_its_status_then_its_own_in_lowercase_and_reads_back() {
    let answer = Response::new(201)
        .header("Content-Type", "text/plain")
        .header("Connection", "close")
        .header("X-Trace", "7")
        .body(b"made");
    let head = response_fields(&answer);
    assert_eq!(
        head,
        fields(&[(":status", "201"), ("content-type", "text/plain"), ("x-trace", "7")])
    );
    check(&head, 4096).expect("well formed");
    let back = response_of(head, answer.body.clone(), Vec::new()).expect("read");
    assert_eq!(back.status, 201);
    assert_eq!(back.reason, "Created");
    assert_eq!(back.headers, fields(&[("content-type", "text/plain"), ("x-trace", "7")]));
    assert_eq!(back.body, b"made".to_vec());
}

#[test]
fn a_window_refused_says_the_octets_and_the_window() {
    let mut window = Window::new(10);
    assert_eq!(window.take(11).expect_err("overrun").message, "11 octets against a window of 10");
    window.shift(-20).expect("shifted");
    assert_eq!(window.take(5).expect_err("overrun").message, "5 octets against a window of -10");
    let mut full = Window::new(MAX_STREAM_ID);
    assert_eq!(
        full.grant(1).expect_err("over").message,
        "a window of 2147483648, over 2^31 - 1"
    );
    assert_eq!(full.grant(0).expect_err("zero").message, "a WINDOW_UPDATE of 0");
}

#[test]
fn a_refused_setting_says_its_value() {
    let said = |payload: &[u8], client: bool| {
        Settings::default().apply(payload, client).expect_err("refused").message
    };
    assert_eq!(said(&[0, 2, 0, 0, 0, 2], false), "SETTINGS_ENABLE_PUSH of 2 from a client");
    assert_eq!(said(&[0, 2, 0, 0, 0, 1], true), "SETTINGS_ENABLE_PUSH of 1 from a server");
    assert_eq!(said(&[0, 4, 0x80, 0, 0, 0], false), "an initial window of 2147483648, over 2^31 - 1");
    assert_eq!(
        said(&[0, 5, 0, 0, 0x3f, 0xff], false),
        "a maximum frame size of 16383, outside 2^14 to 2^24 - 1"
    );
    assert_eq!(said(&[0, 4, 0, 0, 0], false), "a SETTINGS of 5 octets is not whole parameters");
}
