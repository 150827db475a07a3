use xmip_core_library_net::authority::{bracketed, host_of, parse, with_default_port};
use xmip_core_library_net::endpoint::Endpoint;
use xmip_core_library_net::ip::Ip;
use xmip_core_library_net::mac::{notation, parse as parse_mac};
use xmip_core_library_net::network::Network;
use xmip_core_library_net::percent::{decode, decode_strict, encode, BrokenEscape};
use xmip_core_library_net::uri::{file_of, path_of};

#[test]
fn the_default_port_is_added_only_when_none_is_given() {
    assert_eq!(with_default_port("example.com", 80), "example.com:80");
    assert_eq!(with_default_port("example.com:8080", 80), "example.com:8080");
    assert_eq!(with_default_port("[::1]", 80), "[::1]:80");
    assert_eq!(with_default_port("[::1]:8080", 80), "[::1]:8080");
}

#[test]
fn the_host_is_read_without_its_port_or_brackets() {
    assert_eq!(host_of("example.com:8080"), "example.com");
    assert_eq!(host_of("example.com"), "example.com");
    assert_eq!(host_of("[::1]:8080"), "::1");
    assert_eq!(host_of("[::1]"), "::1");
}

#[test]
fn an_authority_is_a_host_and_an_optional_port() {
    assert_eq!(parse("opa.example:8282").expect("read"), ("opa.example", Some(8282)));
    assert_eq!(parse("127.0.0.1").expect("read"), ("127.0.0.1", None));
    assert_eq!(parse("[::1]:9000").expect("read"), ("::1", Some(9000)));
    assert_eq!(parse("[::1]").expect("read"), ("::1", None));
}

#[test]
fn an_authority_that_is_not_one_is_refused_saying_why() {
    let refused = |text: &str| parse(text).expect_err("refused").message;
    assert!(refused(":8181").contains("names no host"));
    assert!(refused("opa.example:agent").contains("a port that is not one"));
    assert!(refused("opa.example:70000").contains("a port that is not one"));
    assert!(refused("[::1:8181").contains("bracket"));
}

#[test]
fn an_ipv6_host_is_bracketed_and_nothing_else_is() {
    assert_eq!(bracketed("::1"), "[::1]");
    assert_eq!(bracketed("opa.example"), "opa.example");
}

#[test]
fn a_host_and_port_written_read_back_as_they_were() {
    for (host, port) in [("opa.example", 8181u16), ("127.0.0.1", 0), ("x", 65535)] {
        let written = format!("{host}:{port}");
        assert_eq!(parse(&written).expect("read"), (host, Some(port)));
        assert_eq!(with_default_port(host, port), written);
    }
}

fn read(url: &str) -> Endpoint {
    Endpoint::parse(url).expect("an endpoint")
}

#[test]
fn an_endpoint_is_a_host_a_port_and_a_path() {
    let plain = read("http://opa.example:8282").or_port(8181);
    let based = read("http://127.0.0.1/opa/").or_port(8181);
    let six = read("http://[::1]:9000/oauth/introspect");
    assert_eq!((plain.host(), plain.port(), plain.path()), ("opa.example", 8282, "/"));
    assert_eq!((based.port(), based.path()), (8181, "/opa/"));
    assert_eq!((six.host(), six.port()), ("::1", 9000));
    assert_eq!(six.path(), "/oauth/introspect");
    assert_eq!(six.authority(), "[::1]:9000");
}

#[test]
fn the_scheme_gives_the_port_and_the_host_header_leaves_its_own_port_out() {
    let http = read("http://example.com/x");
    let https = read("https://example.com/x");
    let other = read("https://example.com:8443/x");
    assert_eq!((http.port(), http.secure()), (80, false));
    assert_eq!((https.port(), https.secure()), (443, true));
    assert_eq!(http.address(), "example.com:80");
    assert_eq!(https.address(), "example.com:443");
    assert_eq!(https.authority(), "example.com");
    assert_eq!(other.authority(), "example.com:8443");
    assert_eq!(read("http://[::1]").authority(), "[::1]");
    assert_eq!(read("http://example.com:80").authority(), "example.com");
}

#[test]
fn loopback_is_read_off_the_endpoint_and_a_name_is_never_resolved() {
    let loopback = |text: &str, address: Option<Ip>| read(text).names_loopback(address);
    assert!(loopback("http://127.0.0.1:8181", Some(Ip::V4(0x7f00_0001))));
    assert!(loopback("http://127.9.9.9", Some(Ip::V4(0x7f09_0909))));
    assert!(loopback("http://LOCALHOST:8181", None));
    assert!(loopback("http://[::1]:8181", Some(Ip::V6(1))));
    assert!(!loopback("http://opa.example:8181", None));
    assert!(!loopback("http://10.0.0.5:8181", Some(Ip::V4(0x0a00_0005))));
}

#[test]
fn an_endpoint_that_is_not_one_is_refused_saying_why() {
    let refused = |text: &str| Endpoint::parse(text).expect_err("refused").message;
    assert!(refused("ftp://opa.example").contains("not an http:// or https:// URL"));
    assert!(refused("opa.example/orders").contains("not an http://"));
    assert!(refused("http://:8181").contains("names no host"));
    assert!(refused("http:///orders").contains("names no host"));
    assert!(refused("http://opa.example:agent").contains("a port that is not one"));
    assert!(refused("http://[::1:8181").contains("bracket"));
}

#[test]
fn a_client_without_tls_refuses_https_saying_so() {
    let refused = read("https://opa.example").plain().expect_err("refused");
    assert!(refused.message.contains("plain HTTP/1.1 only"), "{}", refused.message);
    assert!(read("http://opa.example").plain().is_ok());
}

#[test]
fn encoding_keeps_the_unreserved_and_the_path_slash() {
    assert_eq!(encode("in/a b+c.edi", true), "in/a%20b%2Bc.edi");
    assert_eq!(encode("in/", false), "in%2F");
    assert_eq!(encode("a+b/c=d.e-f", false), "a%2Bb%2Fc%3Dd.e-f");
    assert_eq!(encode("räksmörgås", false), "r%C3%A4ksm%C3%B6rg%C3%A5s");
}

#[test]
fn decoding_leaves_a_broken_escape_as_written() {
    assert_eq!(decode("in%2Fa%20b"), "in/a b");
    assert_eq!(decode("r%C3%A4k"), "räk");
    assert_eq!(decode("%zz%4"), "%zz%4");
    assert_eq!(decode("%+f"), "%+f", "a sign is not a hex digit");
    assert_eq!(decode("a+b"), "a+b", "a plus is the form's, not the URI's");
}

#[test]
fn strict_decoding_refuses_a_broken_escape_where_it_is() {
    assert_eq!(decode_strict(b"k-1%2Bz").expect("read"), b"k-1+z");
    assert_eq!(decode_strict(b"x%zz"), Err(BrokenEscape { at: 1 }));
    assert_eq!(decode_strict(b"ab%4"), Err(BrokenEscape { at: 2 }));
    assert_eq!(decode_strict(b"%+f"), Err(BrokenEscape { at: 0 }));
    assert_eq!(BrokenEscape { at: 7 }.to_string(), "a % without two hex digits at byte 7");
}

#[test]
fn what_is_encoded_decodes_back_strictly_and_leniently() {
    for text in ["in/a b+c.edi", "räksmörgås", "%%41", "", "a=b&c"] {
        for keep_slash in [false, true] {
            let written = encode(text, keep_slash);
            assert_eq!(decode(&written), text);
            assert_eq!(decode_strict(written.as_bytes()).expect("read"), text.as_bytes());
        }
    }
    assert_eq!(decode("%ff"), "\u{fffd}");
}

#[test]
fn a_path_of_either_platform_is_one_uri_path_and_comes_back() {
    assert_eq!(path_of("/var/xmip/in"), "/var/xmip/in");
    assert_eq!(path_of("C:\\in\\a.edi"), "/C:/in/a.edi");
    assert_eq!(path_of("relative/a"), "/relative/a");
    assert_eq!(file_of("/C:/in/a.edi"), "C:/in/a.edi");
    assert_eq!(file_of("/var/xmip/in"), "/var/xmip/in");
    assert_eq!(file_of("/1:/x"), "/1:/x", "not a drive");
}

#[test]
fn a_drive_path_comes_back_from_its_uri_path_with_forward_slashes() {
    assert_eq!(file_of(&path_of("D:\\out\\b.xml")), "D:/out/b.xml");
    assert_eq!(file_of(&path_of("\\\\share\\x")), "//share/x");
}

const ADDRESS: [u8; 6] = [0x00, 0x1b, 0x44, 0x11, 0x3a, 0xb7];

#[test]
fn an_address_is_read_in_each_spelling_and_written_in_one() {
    for spelling in [
        "00:1b:44:11:3a:b7",
        "00-1B-44-11-3A-B7",
        "001b.4411.3ab7",
        "001B44113AB7",
        " 00:1B:44:11:3a:b7 ",
    ] {
        assert_eq!(parse_mac(spelling).expect(spelling), ADDRESS, "{spelling}");
    }
    assert_eq!(notation(&ADDRESS), "00:1b:44:11:3a:b7");
    assert_eq!(parse_mac("aa-bb").expect("two octets"), vec![0xaa, 0xbb]);
    assert_eq!(notation(&[]), "");
}

#[test]
fn what_is_not_the_notation_is_refused() {
    for broken in [
        "",
        "0:1b:44:11:3a:b7",
        "00:1b:44:11:3a:zz",
        "00:1b:44:11:3a:+b",
        "001b44113ab",
        "001b.4411.3ab",
        "00:1b::11:3a:b7",
    ] {
        assert!(parse_mac(broken).is_err(), "{broken:?}");
    }
}

#[test]
fn a_notation_reads_back_as_its_octets() {
    for octets in [&[0xffu8][..], &ADDRESS[..], &[1, 2, 3, 4, 5, 6, 7, 8, 9, 10]] {
        assert_eq!(parse_mac(&notation(octets)).expect("read"), octets);
    }
}

#[test]
fn a_network_holds_what_shares_its_prefix() {
    let (text, address, prefix) = Network::split(" 192.168.1.0/24 ");
    assert_eq!((text, address, prefix), ("192.168.1.0/24", "192.168.1.0", Some("24")));
    let lan = Network::of(text, Some(Ip::V4(0xc0a8_0100)), prefix).expect("network");
    assert!(lan.contains(Ip::V4(0xc0a8_014d)));
    assert!(!lan.contains(Ip::V4(0xc0a8_0201)));
    assert!(!lan.contains(Ip::V6(0xffff_c0a8_014d)));
    let all = Network::of("::/0", Some(Ip::V6(0)), Some("0")).expect("all");
    assert!(all.contains(Ip::V6(0xfe80 << 112 | 1)));
    let host = Network::of("10.1.2.3", Some(Ip::V4(0x0a01_0203)), None).expect("one host");
    assert!(host.contains(Ip::V4(0x0a01_0203)));
    assert!(!host.contains(Ip::V4(0x0a01_0204)));
    assert!(Network::of("10.0.0.0/33", Some(Ip::V4(0x0a00_0000)), Some("33")).is_err());
    assert!(Network::of("2001:db8::/129", Some(Ip::V6(0x2001_0db8 << 96)), Some("129")).is_err());
    let refused = Network::of("partner-x.example", None, None).expect_err("no address");
    assert!(refused.message.contains("is not a network"));
}

/// The network `text` writes, its address half given as the bits it reads
/// as.
fn network(text: &str, address: Ip) -> Network {
    let (trimmed, _, prefix) = Network::split(text);
    Network::of(trimmed, Some(address), prefix).expect("a network")
}

#[test]
fn a_v4_prefix_contains_its_hosts_and_nothing_else() {
    let lan = network("192.168.1.0/24", Ip::V4(0xc0a8_0100));

    assert!(lan.contains(Ip::V4(0xc0a8_014d)));
    assert!(!lan.contains(Ip::V4(0xc0a8_0201)));
    assert!(!lan.contains(Ip::V6(0xffff_c0a8_014d)), "other family");
    assert!(network("0.0.0.0/0", Ip::V4(0)).contains(Ip::V4(0x0808_0808)));
    assert!(
        network("10.1.2.3", Ip::V4(0x0a01_0203)).contains(Ip::V4(0x0a01_0203)),
        "one host"
    );
    assert!(!network("10.1.2.3", Ip::V4(0x0a01_0203)).contains(Ip::V4(0x0a01_0204)));
}

#[test]
fn a_v6_prefix_masks_the_full_width() {
    let documentation = network("2001:db8::/32", Ip::V6(0x2001_0db8 << 96));

    assert!(documentation.contains(Ip::V6(0x2001_0db8_0001 << 80 | 1)));
    assert!(!documentation.contains(Ip::V6(0x2001_0db9 << 96 | 1)));
    assert!(network("::/0", Ip::V6(0)).contains(Ip::V6(0xfe80 << 112 | 1)));
    assert_eq!(
        (documentation.address(), documentation.prefix()),
        (Ip::V6(0x2001_0db8 << 96), 32)
    );
}

#[test]
fn a_prefix_too_long_for_the_family_is_refused() {
    let (text, _, prefix) = Network::split("10.0.0.0/33");
    assert!(Network::of(text, Some(Ip::V4(0x0a00_0000)), prefix).is_err());
    let (text, _, prefix) = Network::split("2001:db8::/129");
    assert!(Network::of(text, Some(Ip::V6(0x2001_0db8 << 96)), prefix).is_err());
    let (text, _, prefix) = Network::split("partner-x.example");
    assert!(Network::of(text, None, prefix).is_err());
}

#[test]
fn where_the_strict_decoding_reads_the_lenient_one_reads_the_same() {
    for text in ["k-1%2Bz", "r%C3%A4k", "plain", "%41%42"] {
        let strict = decode_strict(text.as_bytes()).expect("read");
        assert_eq!(decode(text).as_bytes(), strict.as_slice());
    }
    assert_eq!(decode("x%zz"), "x%zz");
    assert_eq!(decode_strict(b"%41%4"), Err(BrokenEscape { at: 3 }));
}

#[test]
fn a_connection_failure_says_what_was_being_done_and_keeps_its_kind() {
    let failed = std::io::Error::new(std::io::ErrorKind::ConnectionReset, "reset by peer");
    let said = xmip_core_library_net::NetError::from_io("reading the answer", &failed);
    assert_eq!(said.message, "reading the answer: reset by peer");
    assert_eq!(said.io, Some(std::io::ErrorKind::ConnectionReset));
}
