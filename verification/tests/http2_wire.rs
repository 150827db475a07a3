use xmip_core_library_net::http::response::Response;
use xmip_core_library_net::http::Request;
use xmip_core_library_net::http2::client::Client;
use xmip_core_library_net::http2::connection::DataStep;
use xmip_core_library_net::http2::error::ErrorCode;
use xmip_core_library_net::http2::frame::{
    read, Frame, Kind, ReadFailure, ACK, END_HEADERS, END_STREAM,
};
use xmip_core_library_net::http2::hpack::encoder::Encoder;
use xmip_core_library_net::http2::preface::preface;
use xmip_core_library_net::http2::server::{Next, Server, DRAIN};

/// Every frame `bytes` holds, up to the first `GOAWAY`.
fn frames_of(bytes: &[u8]) -> Vec<Frame> {
    let mut rest = bytes;
    let mut back = Vec::new();
    while let Ok(Some((frame, used))) = read(rest, 1 << 20) {
        rest = &rest[used..];
        let goaway = frame.kind == Kind::Goaway;
        back.push(frame);
        if goaway {
            break;
        }
    }
    back
}

/// Hand the next frame of `input` to `server`: `false` where there is none
/// or the connection failed.
fn pump(server: &mut Server, input: &mut &[u8], out: &mut Vec<u8>) -> bool {
    let max = server.connection.local.max_frame_size;
    match read(input, max) {
        Ok(Some((frame, used))) => {
            *input = &input[used..];
            server.connection.receive(&frame, out).is_ok()
        }
        Ok(None) => false,
        Err(ReadFailure::Violation(violation)) => {
            let _ = server.connection.fail(violation, out);
            false
        }
        Err(ReadFailure::Net(_)) => false,
    }
}

/// What a server that answers every request with `200` writes to a client
/// that sent `input`.
fn served(input: &[u8]) -> Vec<u8> {
    let mut out = Vec::new();
    let length = preface().len();
    let mut server = match Server::handshake(&input[..length], &mut out) {
        Ok(server) => server,
        Err(_) => return out,
    };
    let mut rest = &input[length..];
    loop {
        match server.next_request(&mut out) {
            Next::Request(id, _) => {
                let answer = Response::new(200);
                let body = server.respond(id, &answer, &mut out).expect("answered");
                assert!(!body);
                server.finish(id, &answer, &mut out);
            }
            Next::Dropped(_) => {}
            Next::Done => break,
            Next::Read => {
                if !pump(&mut server, &mut rest, &mut out) {
                    if server.connection.going_away {
                        return out;
                    }
                    break;
                }
            }
        }
    }
    server.close(&mut out);
    for _ in 0..DRAIN {
        if !pump(&mut server, &mut rest, &mut out) {
            break;
        }
    }
    out
}

/// What a server answers a client that writes `frames` after its preface
/// and `SETTINGS`: every frame, up to the connection's end.
fn answered(frames: &[Frame]) -> Vec<Frame> {
    let mut input = preface().to_vec();
    input.extend_from_slice(&Frame::new(Kind::Settings, 0, 0, Vec::new()).encode());
    for sent in frames {
        input.extend_from_slice(&sent.encode());
    }
    frames_of(&served(&input))
}

#[test]
fn a_ping_is_answered_and_a_malformed_one_ends_the_connection() {
    let back = answered(&[
        Frame::ping(*b"xmip-h2!", false),
        Frame::new(Kind::Ping, 0, 0, vec![0; 7]),
    ]);
    let kinds: Vec<Kind> = back.iter().map(|frame| frame.kind).collect();
    assert_eq!(
        kinds,
        [Kind::Settings, Kind::Settings, Kind::Ping, Kind::Goaway]
    );
    assert!(back[1].has(ACK) && back[2].has(ACK));
    assert_eq!(back[2].payload, b"xmip-h2!");
    assert_eq!(back[3].word(4), Some(ErrorCode::FrameSize.code()));
}

#[test]
fn a_window_update_of_zero_resets_its_stream_and_data_on_an_idle_one_ends_all() {
    let request = Encoder::new(4096, false).encode(&[
        (":method", "POST"),
        (":scheme", "http"),
        (":path", "/"),
    ]);
    let back = answered(&[
        Frame::new(Kind::Headers, END_HEADERS, 1, request),
        Frame::window_update(1, 0),
        Frame::new(Kind::Data, 0, 9, b"x".to_vec()),
    ]);
    let reset = back
        .iter()
        .find(|frame| frame.kind == Kind::RstStream)
        .expect("reset");
    assert_eq!(
        (reset.stream, reset.word(0)),
        (1, Some(ErrorCode::Protocol.code()))
    );
    let goaway = back.last().expect("goaway");
    assert_eq!(goaway.kind, Kind::Goaway);
    assert_eq!(goaway.word(4), Some(ErrorCode::Protocol.code()));
}

#[test]
fn a_header_block_split_over_continuation_is_read_whole() {
    let block = Encoder::new(4096, true).encode(&[
        (":method", "GET"),
        (":scheme", "http"),
        (":path", "/split"),
        (":authority", "example"),
    ]);
    let (first, rest) = block.split_at(3);
    let back = answered(&[
        Frame::new(Kind::Headers, END_STREAM, 1, first.to_vec()),
        Frame::new(Kind::Continuation, END_HEADERS, 1, rest.to_vec()),
        Frame::goaway(0, ErrorCode::NoError, b""),
    ]);
    let head = back
        .iter()
        .find(|frame| frame.kind == Kind::Headers)
        .expect("answer");
    assert_eq!(head.stream, 1);
    assert!(head.has(END_STREAM));
}

/// A client and a server over two byte pipes, each turn of the driver
/// moving what one side wrote to the other.
struct Pipes {
    client: Client,
    server: Server,
    to_server: Vec<u8>,
    to_client: Vec<u8>,
}

impl Pipes {
    fn new() -> Self {
        let mut to_server = Vec::new();
        let client = Client::handshake("http", &mut to_server);
        let length = preface().len();
        let mut to_client = Vec::new();
        let server = Server::handshake(&to_server[..length], &mut to_client).expect("preface");
        to_server.drain(..length);
        Pipes { client, server, to_server, to_client }
    }

    /// Hand every whole frame waiting for the server to it.
    fn feed_server(&mut self) {
        let input = std::mem::take(&mut self.to_server);
        let mut rest = &input[..];
        while let Ok(Some((frame, used))) = read(rest, 1 << 24) {
            rest = &rest[used..];
            let _ = self.server.connection.receive(&frame, &mut self.to_client);
        }
    }

    /// Hand every whole frame waiting for the client to it.
    fn feed_client(&mut self) {
        let input = std::mem::take(&mut self.to_client);
        let mut rest = &input[..];
        while let Ok(Some((frame, used))) = read(rest, 1 << 24) {
            rest = &rest[used..];
            let _ = self.client.connection.receive(&frame, &mut self.to_server);
        }
    }

    /// Write `body` on `id` from the client, both sides taking turns
    /// while a window is shut.
    fn client_body(&mut self, id: u32, body: &[u8]) {
        let mut rest = body;
        loop {
            match self
                .client
                .connection
                .send_data_step(id, rest, true, &mut self.to_server)
                .expect("sent")
            {
                DataStep::Stalled => {
                    self.feed_server();
                    self.feed_client();
                }
                DataStep::Sent(n, last) => {
                    rest = &rest[n..];
                    if last {
                        break;
                    }
                }
            }
        }
    }

    /// Write `body` on `id` from the server, both sides taking turns while
    /// a window is shut.
    fn server_body(&mut self, id: u32, body: &[u8], end: bool) {
        let mut rest = body;
        loop {
            match self
                .server
                .connection
                .send_data_step(id, rest, end, &mut self.to_client)
                .expect("sent")
            {
                DataStep::Stalled => {
                    self.feed_client();
                    self.feed_server();
                }
                DataStep::Sent(n, last) => {
                    rest = &rest[n..];
                    if last {
                        break;
                    }
                }
            }
        }
    }

    /// The next request the server takes off.
    fn next_request(&mut self) -> Option<(u32, Request)> {
        for _ in 0..8 {
            match self.server.next_request(&mut self.to_client) {
                Next::Request(id, request) => return Some((id, request)),
                Next::Dropped(_) => {}
                Next::Done => return None,
                Next::Read => self.feed_server(),
            }
        }
        None
    }

    /// Answer `id` with `answer`, body and trailers.
    fn respond(&mut self, id: u32, answer: &Response) {
        if self
            .server
            .respond(id, answer, &mut self.to_client)
            .expect("answered")
        {
            let end = carried_none(answer);
            self.server_body(id, &answer.body, end);
        }
        self.server.finish(id, answer, &mut self.to_client);
    }
}

fn carried_none(answer: &Response) -> bool {
    xmip_core_library_net::http2::message::carried(&answer.trailers).is_empty()
}

/// The answer of the test server: the body reversed, its length as a
/// trailer.
fn reversing(request: &Request) -> Response {
    let mut body = request.body.clone();
    body.reverse();
    Response::new(200)
        .header("Content-Type", "text/plain")
        .body(&body)
        .trailer("x-checksum", &request.body.len().to_string())
}

impl Pipes {
    /// Send `request` from the client, let the server answer it with
    /// `answer`, and take the answer back.
    fn round_trip(&mut self, request: &Request, answer: fn(&Request) -> Response) -> Response {
        let id = self.client.send(request, &mut self.to_server).expect("sent");
        if !request.body.is_empty() {
            self.client_body(id, &request.body);
        }
        let (taken, asked) = self.next_request().expect("one");
        assert_eq!(taken, id);
        self.respond(taken, &answer(&asked));
        self.feed_client();
        assert!(self.client.answer_ready(id));
        self.client.take_answer(id).expect("answered")
    }
}

#[test]
fn a_request_and_its_answer_round_trip_on_one_connection() {
    let mut pipes = Pipes::new();
    let posted = Request::new("POST", "/orders")
        .query("id", "7")
        .header("Host", "example")
        .body(b"abc");
    let answer = pipes.round_trip(&posted, reversing);
    assert_eq!((answer.status, answer.reason.as_str()), (200, "OK"));
    assert_eq!(answer.body, b"cba");
    assert_eq!(answer.header_value("content-type"), Some("text/plain"));
    assert_eq!(answer.trailer_value("x-checksum"), Some("3"));
    let empty = pipes.round_trip(&Request::new("GET", "/"), reversing);
    assert!(empty.body.is_empty());
    let opaque = pipes.client.ping(&mut pipes.to_server);
    pipes.feed_server();
    pipes.feed_client();
    assert!(pipes.client.connection.has_pong(opaque));
    pipes.client.close(&mut pipes.to_server);
    pipes.feed_server();
    assert!(matches!(pipes.server.next_request(&mut pipes.to_client), Next::Done));
}

#[test]
fn a_request_is_read_back_as_it_was_sent() {
    let mut pipes = Pipes::new();
    let posted = Request::new("POST", "/orders")
        .query("id", "7")
        .header("Host", "example")
        .body(b"abc");
    let id = pipes.client.send(&posted, &mut pipes.to_server).expect("sent");
    assert_eq!(id, 1);
    pipes.client_body(id, &posted.body);
    let (taken, request) = pipes.next_request().expect("one");
    assert_eq!(taken, 1);
    assert_eq!(request.method, "POST");
    assert_eq!(request.path, "/orders");
    assert_eq!(request.query_value("id"), Some("7"));
    assert_eq!(request.header_value("host"), Some("example"));
    assert_eq!(request.body, b"abc");
}

#[test]
fn a_body_past_the_window_stalls_and_resumes_both_ways() {
    let mut pipes = Pipes::new();
    let big: Vec<u8> = (0..300_000u32).map(|i| u8::try_from(i % 251).expect("byte")).collect();
    let put = Request::new("PUT", "/big").body(&big);
    let id = pipes.client.send(&put, &mut pipes.to_server).expect("sent");
    pipes.client_body(id, &big);
    assert!(pipes.client.stalls() > 0, "the request never met a shut window");
    let (taken, request) = pipes.next_request().expect("one");
    assert_eq!(request.body, big);
    pipes.respond(taken, &Response::new(200).body(&big));
    assert!(pipes.server.stalls() > 0, "the answer never met a shut window");
    pipes.feed_client();
    let answer = pipes.client.take_answer(id).expect("answered");
    assert_eq!(answer.body, big);
}

#[test]
fn a_goaway_lets_the_taken_stream_finish_and_refuses_the_next() {
    let mut pipes = Pipes::new();
    let id = pipes
        .client
        .send(&Request::new("GET", "/1"), &mut pipes.to_server)
        .expect("sent");
    let (taken, _) = pipes.next_request().expect("one");
    pipes.server.go_away(&mut pipes.to_client);
    pipes.respond(taken, &Response::new(204));
    pipes.feed_client();
    assert_eq!(pipes.client.take_answer(id).expect("first").status, 204);
    let refused = pipes
        .client
        .send(&Request::new("GET", "/2"), &mut pipes.to_server)
        .expect_err("gone");
    assert_eq!(refused.io, Some(std::io::ErrorKind::ConnectionAborted), "{}", refused.message);
    assert_eq!(
        refused.message,
        "the server went away (NoError) after stream 1; the request was not sent"
    );
}

#[test]
fn a_stream_above_the_goaways_last_is_refused_as_not_processed() {
    let mut client_out = Vec::new();
    let mut client = Client::handshake("https", &mut client_out);
    let id = client.send(&Request::new("GET", "/"), &mut client_out).expect("sent");
    let mut from_server = Frame::new(Kind::Settings, 0, 0, Vec::new()).encode();
    from_server.extend_from_slice(&Frame::goaway(0, ErrorCode::NoError, b"bye").encode());
    let mut rest = &from_server[..];
    while let Ok(Some((frame, used))) = read(rest, 1 << 20) {
        rest = &rest[used..];
        client.connection.receive(&frame, &mut client_out).expect("handled");
    }
    assert!(client.answer_ready(id));
    let refused = client.take_answer(id).expect_err("refused");
    assert_eq!(refused.io, Some(std::io::ErrorKind::ConnectionAborted));
    assert_eq!(refused.message, "stream 1 was reset: RefusedStream");
}

#[test]
fn a_frame_before_the_settings_ends_the_connection() {
    let mut out = Vec::new();
    let mut client = Client::handshake("http", &mut out);
    out.clear();
    let failed = client
        .connection
        .receive(&Frame::ping(*b"12345678", false), &mut out)
        .expect_err("refused");
    assert!(failed.message.starts_with("HTTP/2 Protocol (0x1): "), "{}", failed.message);
    let back = frames_of(&out);
    assert_eq!(back.len(), 1);
    assert_eq!(back[0].kind, Kind::Goaway);
    assert_eq!(back[0].word(4), Some(ErrorCode::Protocol.code()));
}

#[test]
fn a_settings_frame_is_acknowledged_and_moves_the_windows() {
    let mut out = Vec::new();
    let mut client = Client::handshake("http", &mut out);
    let id = client.send(&Request::new("POST", "/").body(b"x"), &mut out).expect("sent");
    out.clear();
    let mut payload = vec![0, 4];
    payload.extend_from_slice(&100u32.to_be_bytes());
    client
        .connection
        .receive(&Frame::new(Kind::Settings, 0, 0, payload), &mut out)
        .expect("applied");
    let back = frames_of(&out);
    assert_eq!(back.len(), 1);
    assert_eq!((back[0].kind, back[0].flags), (Kind::Settings, ACK));
    assert_eq!(client.connection.remote.initial_window_size, 100);
    let k = client.connection.find(id).expect("open");
    assert_eq!(client.connection.streams[k].1.send.available(), 100);
}

#[test]
fn a_header_block_larger_than_a_frame_goes_on_in_continuation() {
    let mut out = Vec::new();
    let mut client = Client::handshake("http", &mut out);
    out.clear();
    let long = "x".repeat(20_000);
    let request = Request::new("GET", "/").header("x-long", &long);
    let id = client.send(&request, &mut out).expect("sent");
    let back = frames_of(&out);
    assert_eq!(back.len(), 2);
    assert_eq!((back[0].kind, back[0].stream), (Kind::Headers, id));
    assert!(back[0].has(END_STREAM) && !back[0].has(END_HEADERS));
    assert_eq!(back[0].payload.len(), 16_384);
    assert_eq!((back[1].kind, back[1].stream), (Kind::Continuation, id));
    assert!(back[1].has(END_HEADERS) && !back[1].has(END_STREAM));
}

#[test]
fn a_reset_stream_refuses_a_send_and_a_goaway_carries_its_code() {
    let mut out = Vec::new();
    let mut client = Client::handshake("http", &mut out);
    let id = client.send(&Request::new("POST", "/").body(b"abc"), &mut out).expect("sent");
    out.clear();
    client.connection.reset(id, ErrorCode::Cancel, &mut out);
    let failed = client
        .connection
        .send_data_step(id, b"abc", true, &mut out)
        .expect_err("reset");
    assert_eq!(failed.message, "stream 1 was reset: Cancel");
    assert_eq!(failed.io, None);
    let missing = client
        .connection
        .send_data_step(7, b"", true, &mut out)
        .expect_err("not open");
    assert_eq!(missing.message, "stream 7 is not open");
    client.connection.go_away(ErrorCode::EnhanceYourCalm, "slow down", &mut out);
    let back = frames_of(&out);
    assert_eq!(back[0].kind, Kind::RstStream);
    assert_eq!(back[0].word(0), Some(ErrorCode::Cancel.code()));
    let goaway = back.last().expect("goaway");
    assert_eq!(goaway.word(4), Some(ErrorCode::EnhanceYourCalm.code()));
    assert_eq!(&goaway.payload[8..], b"slow down");
}

#[test]
fn a_stream_is_answered_once() {
    let mut pipes = Pipes::new();
    let get = Request::new("GET", "/once").header("Host", "example");
    let id = pipes.client.send(&get, &mut pipes.to_server).expect("sent");
    let (taken, _) = pipes.next_request().expect("one");
    assert_eq!(taken, id);
    pipes.respond(taken, &Response::new(204));
    let mut out = Vec::new();
    let again = pipes.server.respond(taken, &Response::new(204), &mut out).expect_err("twice");
    assert_eq!(again.message, "no request waits on stream 1");
    assert!(out.is_empty());
}
