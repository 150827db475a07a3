use xmip_core_library_net::http::{
    answer_so_far, read_request, read_response, write_request, write_response, Request, Response, Version,
    MAX_BODY,
};
use xmip_core_library_net::NetError;

fn answer(bytes: &[u8]) -> Result<Response, NetError> {
    read_response(&mut &bytes[..])
}

#[test]
fn the_request_carries_its_headers_the_length_and_the_close() {
    let request = Request::new("POST", "/v1/data/allow")
        .header("Host", "[::1]:8181")
        .header("Content-Type", "application/json")
        .body(b"{}");
    let mut written = Vec::new();
    write_request(&mut written, &request).expect("written");
    let answer = answer(b"HTTP/1.1 204 No Content\r\n\r\n").expect("answered");
    assert_eq!((answer.status, answer.reason.as_str()), (204, "No Content"));
    assert_eq!(
        String::from_utf8(written).expect("text"),
        "POST /v1/data/allow HTTP/1.1\r\nHost: [::1]:8181\r\n\
         Content-Type: application/json\r\nContent-Length: 2\r\n\
         Connection: close\r\n\r\n{}"
    );
}

#[test]
fn a_request_round_trips_through_its_own_reader() {
    let request = Request::new("PUT", "/bucket/in/1%20a.edi")
        .query("prefix", "in/")
        .header("Host", "s3.local")
        .body(b"UNA");
    let mut written = Vec::new();
    write_request(&mut written, &request).expect("written");
    let response = answer(b"HTTP/1.1 200 OK\r\nContent-Length: 2\r\n\r\nok").expect("answered");
    assert_eq!((response.status, response.body.as_slice()), (200, &b"ok"[..]));
    assert!(written.starts_with(b"PUT /bucket/in/1%20a.edi?prefix=in%2F HTTP/1.1\r\n"));
    let read = read_request(&mut &written[..]).expect("read").expect("one");
    assert_eq!(read.method, "PUT");
    assert_eq!(read.path, "/bucket/in/1%20a.edi");
    assert_eq!(read.query_value("prefix"), Some("in/"));
    assert_eq!(read.query_value("absent"), None);
    assert_eq!(read.header_value("host"), Some("s3.local"));
    assert_eq!(read.body, b"UNA");
    assert!(read_request(&mut &b""[..]).expect("closed").is_none());
    assert!(read_request(&mut &b"GET\r\n\r\n"[..]).is_err());
}

#[test]
fn an_answer_is_read_by_its_length_its_chunks_or_its_end() {
    let plain = b"HTTP/1.1 200 OK\r\nContent-Length: 15\r\n\r\n{\"result\":true}trailing";
    let chunked = b"HTTP/1.1 200 OK\r\nTransfer-Encoding: chunked\r\n\r\n\
        9\r\n{\"result\"\r\n6;name=x\r\n:true}\r\n0\r\nX-Trailer: 1\r\n\r\n";
    let unframed = b"HTTP/1.0 200 OK\r\n\r\nto the end";
    for bytes in [&plain[..], &chunked[..]] {
        let read = answer(bytes).expect("read");
        assert_eq!(read.text().expect("text"), "{\"result\":true}");
    }
    let read = answer(unframed).expect("read");
    assert_eq!(read.text().expect("text"), "to the end");
}

#[test]
fn a_body_that_is_not_utf_8_is_refused_as_text_and_kept_whole_as_bytes() {
    let binary = Response::new(200).body(&[0x7b, 0xff, 0xfe, 0x7d]);
    let refused = binary.text().expect_err("not text");
    assert!(refused.to_string().contains("not UTF-8"), "{}", refused.message);
    assert_eq!(binary.body, [0x7b, 0xff, 0xfe, 0x7d]);
}

#[test]
fn a_connection_kept_carries_the_next_message_and_no_body_is_read_past_a_204() {
    let kept = Request::new("PROPFIND", "/orders")
        .header("Host", "dav.example")
        .header("Connection", "keep-alive");
    let mut written = Vec::new();
    write_request(&mut written, &kept).expect("written");
    write_request(&mut written, &Request::new("GET", "/orders/1")).expect("written");
    let text = String::from_utf8_lossy(&written).into_owned();
    assert_eq!(text.matches("Connection:").count(), 2, "{text}");
    assert!(text.contains("Connection: keep-alive\r\n"), "{text}");
    let mut reader = &written[..];
    let first = read_request(&mut reader).expect("read").expect("one");
    assert_eq!(first.method, "PROPFIND");
    let second = read_request(&mut reader).expect("read").expect("two");
    assert_eq!(second.path, "/orders/1");
    let mut answers = Vec::new();
    let open = Response::new(204).header("Connection", "keep-alive");
    write_response(&mut answers, &open).expect("written");
    write_response(&mut answers, &Response::new(207).body(b"<a/>")).expect("written");
    assert!(answers.starts_with(b"HTTP/1.1 204 No Content\r\n"));
    let mut reader = &answers[..];
    assert!(read_response(&mut reader).expect("204").body.is_empty());
    let multi = read_response(&mut reader).expect("207");
    assert_eq!((multi.status, multi.body.as_slice()), (207, &b"<a/>"[..]));
}

#[test]
fn the_status_and_its_phrase_are_kept_and_headers_are_found_in_any_case() {
    let read = answer(b"HTTP/1.1 401 Unauthorized\r\nWWW-Authenticate: Basic\r\n\r\n").expect("read");
    assert_eq!((read.status, read.reason.as_str()), (401, "Unauthorized"));
    assert_eq!(read.header_value("www-authenticate"), Some("Basic"));
    let mut written = Vec::new();
    write_response(&mut written, &Response::new(404).body(b"<Error/>")).expect("written");
    let back = answer(&written).expect("read");
    assert_eq!((back.status, back.body.as_slice()), (404, &b"<Error/>"[..]));
}

#[test]
fn what_is_not_an_http_answer_is_refused() {
    let over = format!("HTTP/1.1 200 OK\r\nContent-Length: {}\r\n\r\n", MAX_BODY + 1);
    let refused = [
        &b""[..],
        b"nonsense\r\n\r\n",
        b"SSH-2.0-OpenSSH\r\n\r\n",
        b"220 mail.example ESMTP\r\n\r\n",
        b"HTTP/1.1 200 OK\r\nContent-Length: 9\r\n\r\nshort",
        b"HTTP/1.1 200 OK\r\nContent-Length: eight\r\n\r\n",
        b"HTTP/1.1 200 OK\r\nTransfer-Encoding: chunked\r\n\r\n+5\r\nhello\r\n0\r\n\r\n",
        b"HTTP/1.1 200 OK\r\nTransfer-Encoding: chunked\r\n\r\n5\r\nhelloXX0\r\n\r\n",
        b"HTTP/1.1 200 OK\r\nTransfer-Encoding: gzip, chunked\r\n\r\n",
        over.as_bytes(),
    ];
    for bytes in refused {
        assert!(answer(bytes).is_err(), "{}", String::from_utf8_lossy(bytes));
    }
}

#[test]
fn an_answer_with_trailers_goes_chunked_and_reads_back_with_them() {
    for body in [&b"abc"[..], b""] {
        let sent = Response::new(200).body(body).trailer("grpc-status", "0");
        let mut written = Vec::new();
        write_response(&mut written, &sent).expect("written");
        let text = String::from_utf8_lossy(&written).into_owned();
        assert!(text.contains("Transfer-Encoding: chunked\r\n"), "{text}");
        assert!(!text.contains("Content-Length"), "{text}");
        let back = answer(&written).expect("read");
        assert_eq!(back.body, body);
        assert_eq!(back.trailer_value("GRPC-Status"), Some("0"));
    }
    assert!(answer(b"HTTP/1.1 200 OK\r\n\r\n").expect("read").trailers.is_empty());
}

#[test]
fn a_request_without_a_length_has_no_body() {
    let mut reader = &b"POST / HTTP/1.1\r\nHost: x\r\n\r\nGET /next HTTP/1.1\r\n\r\n"[..];
    let first = read_request(&mut reader).expect("read").expect("one");
    assert!(first.body.is_empty());
    assert_eq!(read_request(&mut reader).expect("read").expect("two").path, "/next");
}

#[test]
fn the_version_is_what_alpn_agreed_and_http_1_1_otherwise() {
    assert_eq!(Version::agreed(Some(b"h2")), Version::Http2);
    assert_eq!(Version::agreed(Some(b"http/1.1")), Version::Http11);
    assert_eq!(Version::agreed(None), Version::Http11);
    assert_eq!(Version::default().alpn(), b"http/1.1");
}

#[test]
fn a_version_is_agreed_by_its_own_identifier() {
    for version in [Version::Http11, Version::Http2] {
        assert_eq!(Version::agreed(Some(version.alpn())), version);
    }
}

#[test]
fn a_refused_answer_is_left_unread_and_a_read_one_is_taken() {
    let bytes = b"HTTP/1.1 200 OK\r\nContent-Length: 2\r\n\r\nokHTTP/1.1 500 Internal Server Error\r\nContent-Length: 0\r\n\r\n";
    let mut reader = &bytes[..];
    let first = read_response(&mut reader).expect("first");
    assert_eq!((first.status, first.body.as_slice()), (200, &b"ok"[..]));
    let second = read_response(&mut reader).expect("second");
    assert_eq!((second.status, second.reason.as_str()), (500, "Internal Server Error"));
    assert!(reader.is_empty());
    let broken = b"HTTP/1.1 200 OK\r\nContent-Length: 9\r\n\r\nshort";
    let mut reader = &broken[..];
    let refused = read_response(&mut reader).expect_err("short");
    assert_eq!(reader.len(), broken.len());
    assert!(refused.io.is_some());
}

#[test]
fn a_status_line_with_a_sign_or_no_phrase_is_read_as_std_reads_numbers() {
    let signed = answer(b"HTTP/1.1 +20 Odd\r\n\r\n").expect("read");
    assert_eq!((signed.status, signed.reason.as_str()), (20, "Odd"));
    let bare = answer(b"HTTP/1.1 204\r\n\r\n").expect("read");
    assert_eq!((bare.status, bare.reason.as_str()), (204, ""));
    let mut written = Vec::new();
    write_response(&mut written, &bare).expect("written");
    assert!(written.starts_with(b"HTTP/1.1 204 No Content\r\n"));
}

#[test]
fn the_phrase_of_each_status_is_the_table_s() {
    for (status, phrase) in [(200, "OK"), (207, "Multi-Status"), (423, "Locked"), (599, "Status")] {
        assert_eq!(xmip_core_library_net::http::reason(status), phrase);
        assert_eq!(Response::new(status).reason, phrase);
    }
}

#[test]
fn a_target_splits_back_into_its_path_and_its_query() {
    let request = Request::new("GET", "/a/b").query("x y", "1&2").query("z", "");
    let target = request.target();
    assert_eq!(target, "/a/b?x%20y=1%262&z=");
    let (path, query) = xmip_core_library_net::http::split_target(&target);
    assert_eq!(path, "/a/b");
    assert_eq!(query, vec![("x y".to_string(), "1&2".to_string()), ("z".to_string(), String::new())]);
    let (_, bare) = xmip_core_library_net::http::split_target("/p?a&&b=1&");
    assert_eq!(bare, vec![("a".to_string(), String::new()), ("b".to_string(), "1".to_string())]);
}

fn pairs(fields: &[(String, String)]) -> Vec<(&str, &str)> {
    fields.iter().map(|(n, v)| (n.as_str(), v.as_str())).collect()
}

#[test]
fn a_written_request_reads_back_with_the_framing_the_writer_adds() {
    let request = Request::new("PUT", "/bucket/a%20b")
        .query("k", "v w")
        .query("", "")
        .header("Host", "s3.local")
        .body(b"payload");
    let mut written = Vec::new();
    write_request(&mut written, &request).expect("written");
    let mut reader = &written[..];
    let back = read_request(&mut reader).expect("read").expect("one");
    assert!(reader.is_empty());
    assert_eq!((back.method.as_str(), back.path.as_str()), ("PUT", "/bucket/a%20b"));
    assert_eq!(back.query, request.query);
    assert_eq!(back.body, b"payload");
    assert_eq!(
        pairs(&back.headers),
        [("Host", "s3.local"), ("Content-Length", "7"), ("Connection", "close")]
    );
}

#[test]
fn a_written_answer_reads_back_by_its_length_or_its_chunks() {
    let plain = Response::new(201).header("Location", "/x").body(b"made");
    let mut written = Vec::new();
    write_response(&mut written, &plain).expect("written");
    let back = answer(&written).expect("read");
    assert_eq!((back.status, back.reason.as_str(), back.body.as_slice()), (201, "Created", &b"made"[..]));
    assert_eq!(
        pairs(&back.headers),
        [("Location", "/x"), ("Content-Length", "4"), ("Connection", "close")]
    );
    let chunked = Response::new(200)
        .header("Connection", "keep-alive")
        .body(b"")
        .trailer("grpc-status", "0");
    let mut written = Vec::new();
    write_response(&mut written, &chunked).expect("written");
    let back = answer(&written).expect("read");
    assert!(back.body.is_empty());
    assert_eq!(
        pairs(&back.headers),
        [("Connection", "keep-alive"), ("Transfer-Encoding", "chunked")]
    );
    assert_eq!(pairs(&back.trailers), [("grpc-status", "0")]);
    let none = Response::new(204);
    let mut written = Vec::new();
    write_response(&mut written, &none).expect("written");
    let back = answer(&written).expect("read");
    assert_eq!((back.status, back.body.len()), (204, 0));
}

#[test]
fn a_default_request_and_answer_are_empty() {
    let request = Request::default();
    assert!(request.method.is_empty() && request.path.is_empty() && request.body.is_empty());
    let answer = Response::default();
    assert_eq!((answer.status, answer.reason.as_str()), (0, ""));
}

#[test]
fn a_written_request_is_read_and_the_reader_stops_where_the_next_begins() {
    let first = Request::new("PUT", "/a").query("k", "v w").header("X-One", "1").body(b"abc");
    let second = Request::new("GET", "/b");
    let mut written = Vec::new();
    write_request(&mut written, &first).expect("written");
    write_request(&mut written, &second).expect("written");
    let mut reader = &written[..];
    let one = read_request(&mut reader).expect("read").expect("one");
    assert_eq!(one.method, "PUT");
    assert_eq!(one.path, "/a");
    assert_eq!(one.query_value("k"), Some("v w"));
    assert_eq!(one.body, b"abc");
    let two = read_request(&mut reader).expect("read").expect("two");
    assert_eq!(two.path, "/b");
    assert!(read_request(&mut reader).expect("read").is_none());
}

#[test]
fn a_target_splits_into_its_encoded_path_and_its_decoded_pairs() {
    let (path, query) = xmip_core_library_net::http::split_target("/p%20q?a=b%20c&&flag&x=1=2");
    assert_eq!(path, "/p%20q");
    let pairs: Vec<(String, String)> = [("a", "b c"), ("flag", ""), ("x", "1=2")]
        .iter()
        .map(|&(n, v)| (n.to_string(), v.to_string()))
        .collect();
    assert_eq!(query, pairs);
    let (path, none) = xmip_core_library_net::http::split_target("/x");
    assert_eq!((path.as_str(), none.len()), ("/x", 0));
}

#[test]
fn an_answer_read_so_far_waits_for_its_head_its_length_or_its_end() {
    let whole = b"HTTP/1.1 200 OK\r\nContent-Length: 5\r\n\r\nhello";
    assert!(answer_so_far(&whole[..10], false).is_none());
    assert!(answer_so_far(&whole[..whole.len() - 2], false).is_none());
    let read = answer_so_far(whole, false).expect("whole").expect("read");
    assert_eq!(read.body, b"hello");
    let to_end = b"HTTP/1.1 200 OK\r\n\r\npart";
    assert!(answer_so_far(to_end, false).is_none());
    assert_eq!(answer_so_far(to_end, true).expect("ended").expect("read").body, b"part");
    let none = b"HTTP/1.1 204 No Content\r\n\r\n";
    assert_eq!(answer_so_far(none, false).expect("whole").expect("read").status, 204);
    assert!(answer_so_far(b"nonsense\r\n\r\n", false).expect("refused").is_err());
    assert!(answer_so_far(b"", true).expect("ended").is_err());
}
