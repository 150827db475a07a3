use xmip_core_library_net::http2::hpack::decoder::Decoder;
use xmip_core_library_net::http2::hpack::encoder::Encoder;
use xmip_core_library_net::http2::hpack::table::{Found, Table};
use xmip_core_library_net::http2::hpack::{huffman, integer, literal};

fn hex(text: &str) -> Vec<u8> {
    let digits: Vec<u8> = text.bytes().filter(u8::is_ascii_hexdigit).collect();
    digits
        .chunks(2)
        .map(|pair| u8::from_str_radix(std::str::from_utf8(pair).expect("ascii"), 16).expect("hex"))
        .collect()
}

fn list(fields: &[(&str, &str)]) -> Vec<(String, String)> {
    fields
        .iter()
        .map(|&(name, value)| (name.to_string(), value.to_string()))
        .collect()
}

struct Example<'a> {
    section: &'a str,
    fields: &'a [(&'a str, &'a str)],
    block: &'a str,
    names: &'a [&'a str],
    size: usize,
}

fn run(examples: &[Example<'_>], table_size: usize, huffman: bool) {
    let mut decoder = Decoder::new(table_size);
    let mut encoder = Encoder::new(table_size, huffman);
    for example in examples {
        let block = hex(example.block);
        let read = decoder.decode(&block).expect(example.section);
        assert_eq!(read, list(example.fields), "{}", example.section);
        let written = encoder.encode(example.fields);
        assert_eq!(written, block, "{}", example.section);
        for table in [decoder.table(), encoder.table()] {
            let names: Vec<&str> = table.dynamic().iter().map(|(name, _)| name.as_str()).collect();
            assert_eq!(names, example.names, "{}", example.section);
            assert_eq!(table.size(), example.size, "{}", example.section);
        }
    }
}

const REQUEST_1: &[(&str, &str)] = &[
    (":method", "GET"),
    (":scheme", "http"),
    (":path", "/"),
    (":authority", "www.example.com"),
];
const REQUEST_2: &[(&str, &str)] = &[
    (":method", "GET"),
    (":scheme", "http"),
    (":path", "/"),
    (":authority", "www.example.com"),
    ("cache-control", "no-cache"),
];
const REQUEST_3: &[(&str, &str)] = &[
    (":method", "GET"),
    (":scheme", "https"),
    (":path", "/index.html"),
    (":authority", "www.example.com"),
    ("custom-key", "custom-value"),
];
const RESPONSE_1: &[(&str, &str)] = &[
    (":status", "302"),
    ("cache-control", "private"),
    ("date", "Mon, 21 Oct 2013 20:13:21 GMT"),
    ("location", "https://www.example.com"),
];
const RESPONSE_2: &[(&str, &str)] = &[
    (":status", "307"),
    ("cache-control", "private"),
    ("date", "Mon, 21 Oct 2013 20:13:21 GMT"),
    ("location", "https://www.example.com"),
];
const RESPONSE_3: &[(&str, &str)] = &[
    (":status", "200"),
    ("cache-control", "private"),
    ("date", "Mon, 21 Oct 2013 20:13:22 GMT"),
    ("location", "https://www.example.com"),
    ("content-encoding", "gzip"),
    ("set-cookie", "foo=ASDJKHQKBZXOQWEOPIUAXQWEOIU; max-age=3600; version=1"),
];
const AFTER_REQUEST_1: &[&str] = &[":authority"];
const AFTER_REQUEST_2: &[&str] = &["cache-control", ":authority"];
const AFTER_REQUEST_3: &[&str] = &["custom-key", "cache-control", ":authority"];
const AFTER_RESPONSE_1: &[&str] = &["location", "date", "cache-control", ":status"];
const AFTER_RESPONSE_2: &[&str] = &[":status", "location", "date", "cache-control"];
const AFTER_RESPONSE_3: &[&str] = &["set-cookie", "content-encoding", "date"];

#[test]
fn appendix_c_2_each_representation_on_its_own() {
    let independent = [
        (
            "400a 6375 7374 6f6d 2d6b 6579 0d63 7573 746f 6d2d 6865 6164 6572",
            ("custom-key", "custom-header"),
            55,
        ),
        ("040c 2f73 616d 706c 652f 7061 7468", (":path", "/sample/path"), 0),
        ("1008 7061 7373 776f 7264 0673 6563 7265 74", ("password", "secret"), 0),
        ("82", (":method", "GET"), 0),
    ];
    for (block, field, size) in independent {
        let mut decoder = Decoder::new(4096);
        assert_eq!(decoder.decode(&hex(block)).expect(block), list(&[field]));
        assert_eq!(decoder.table().size(), size, "{block}");
    }
    let mut encoder = Encoder::new(4096, false);
    assert_eq!(
        encoder.encode(&[("custom-key", "custom-header")]),
        hex(independent[0].0)
    );
    assert_eq!(encoder.encode(&[(":method", "GET")]), [0x82]);
}

#[test]
fn appendix_c_3_requests_without_huffman_coding() {
    run(
        &[
            Example {
                section: "C.3.1",
                fields: REQUEST_1,
                block: "8286 8441 0f77 7777 2e65 7861 6d70 6c65 2e63 6f6d",
                names: AFTER_REQUEST_1,
                size: 57,
            },
            Example {
                section: "C.3.2",
                fields: REQUEST_2,
                block: "8286 84be 5808 6e6f 2d63 6163 6865",
                names: AFTER_REQUEST_2,
                size: 110,
            },
            Example {
                section: "C.3.3",
                fields: REQUEST_3,
                block: "8287 85bf 400a 6375 7374 6f6d 2d6b 6579 0c63 7573 746f 6d2d \
                        7661 6c75 65",
                names: AFTER_REQUEST_3,
                size: 164,
            },
        ],
        4096,
        false,
    );
}

#[test]
fn appendix_c_4_requests_with_huffman_coding() {
    run(
        &[
            Example {
                section: "C.4.1",
                fields: REQUEST_1,
                block: "8286 8441 8cf1 e3c2 e5f2 3a6b a0ab 90f4 ff",
                names: AFTER_REQUEST_1,
                size: 57,
            },
            Example {
                section: "C.4.2",
                fields: REQUEST_2,
                block: "8286 84be 5886 a8eb 1064 9cbf",
                names: AFTER_REQUEST_2,
                size: 110,
            },
            Example {
                section: "C.4.3",
                fields: REQUEST_3,
                block: "8287 85bf 4088 25a8 49e9 5ba9 7d7f 8925 a849 e95b b8e8 b4bf",
                names: AFTER_REQUEST_3,
                size: 164,
            },
        ],
        4096,
        true,
    );
}

#[test]
fn appendix_c_5_responses_without_huffman_coding_evicting_at_256() {
    run(
        &[
            Example {
                section: "C.5.1",
                fields: RESPONSE_1,
                block: "4803 3330 3258 0770 7269 7661 7465 611d 4d6f 6e2c 2032 3120 4f63 \
                        7420 3230 3133 2032 303a 3133 3a32 3120 474d 546e 1768 7474 7073 \
                        3a2f 2f77 7777 2e65 7861 6d70 6c65 2e63 6f6d",
                names: AFTER_RESPONSE_1,
                size: 222,
            },
            Example {
                section: "C.5.2",
                fields: RESPONSE_2,
                block: "4803 3330 37c1 c0bf",
                names: AFTER_RESPONSE_2,
                size: 222,
            },
            Example {
                section: "C.5.3",
                fields: RESPONSE_3,
                block: "88c1 611d 4d6f 6e2c 2032 3120 4f63 7420 3230 3133 2032 303a 3133 \
                        3a32 3220 474d 54c0 5a04 677a 6970 7738 666f 6f3d 4153 444a 4b48 \
                        514b 425a 584f 5157 454f 5049 5541 5851 5745 4f49 553b 206d 6178 \
                        2d61 6765 3d33 3630 303b 2076 6572 7369 6f6e 3d31",
                names: AFTER_RESPONSE_3,
                size: 215,
            },
        ],
        256,
        false,
    );
}

#[test]
fn appendix_c_6_responses_with_huffman_coding_evicting_at_256() {
    run(
        &[
            Example {
                section: "C.6.1",
                fields: RESPONSE_1,
                block: "4882 6402 5885 aec3 771a 4b61 96d0 7abe 9410 54d4 44a8 2005 9504 \
                        0b81 66e0 82a6 2d1b ff6e 919d 29ad 1718 63c7 8f0b 97c8 e9ae 82ae \
                        43d3",
                names: AFTER_RESPONSE_1,
                size: 222,
            },
            Example {
                section: "C.6.2",
                fields: RESPONSE_2,
                block: "4883 640e ffc1 c0bf",
                names: AFTER_RESPONSE_2,
                size: 222,
            },
            Example {
                section: "C.6.3",
                fields: RESPONSE_3,
                block: "88c1 6196 d07a be94 1054 d444 a820 0595 040b 8166 e084 a62d 1bff \
                        c05a 839b d9ab 77ad 94e7 821d d7f2 e6c7 b335 dfdf cd5b 3960 d5af \
                        2708 7f36 72c1 ab27 0fb5 291f 9587 3160 65c0 03ed 4ee5 b106 3d50 \
                        07",
                names: AFTER_RESPONSE_3,
                size: 215,
            },
        ],
        256,
        true,
    );
}

#[test]
fn a_size_update_goes_first_and_stays_under_the_limit() {
    let mut decoder = Decoder::new(4096);
    assert!(decoder.decode(&[0x3f, 0xe1, 0x1f, 0x82]).is_ok());
    assert!(decoder.decode(&[0x20]).is_ok());
    assert_eq!(decoder.table().max_size(), 0);
    assert!(decoder.decode(&[0x82, 0x20]).is_err());
    assert!(decoder.decode(&[0x3f, 0xe2, 0x1f]).is_err());
    assert!(decoder.decode(&[0x80]).is_err());
    assert!(decoder.decode(&[0xbe]).is_err());
}

#[test]
fn a_smaller_table_is_announced_once_at_the_start_of_the_next_block() {
    let mut encoder = Encoder::new(4096, false);
    let mut decoder = Decoder::new(4096);
    let first = encoder.encode(&[("x-a", "1")]);
    decoder.decode(&first).expect("first");
    encoder.resize(0);
    let second = encoder.encode(&[("x-a", "1")]);
    assert_eq!(second[0], 0x20);
    assert_eq!(
        decoder.decode(&second).expect("second"),
        [("x-a".to_string(), "1".to_string())]
    );
    assert_eq!(decoder.table().size(), 0);
    assert_ne!(encoder.encode(&[("x-a", "1")])[0], 0x20);
}

#[test]
fn the_strings_of_appendix_c_4_and_c_6_encode_as_printed() {
    let printed = [
        ("www.example.com", "f1e3 c2e5 f23a 6ba0 ab90 f4ff"),
        ("no-cache", "a8eb 1064 9cbf"),
        ("custom-key", "25a8 49e9 5ba9 7d7f"),
        ("custom-value", "25a8 49e9 5bb8 e8b4 bf"),
        ("302", "6402"),
        ("private", "aec3 771a 4b"),
        (
            "Mon, 21 Oct 2013 20:13:21 GMT",
            "d07a be94 1054 d444 a820 0595 040b 8166 e082 a62d 1bff",
        ),
        ("https://www.example.com", "9d29 ad17 1863 c78f 0b97 c8e9 ae82 ae43 d3"),
        ("gzip", "9bd9 ab"),
    ];
    for (text, wire) in printed {
        let mut out = Vec::new();
        huffman::encode(text.as_bytes(), &mut out);
        assert_eq!(out, hex(wire), "{text}");
        assert_eq!(huffman::encoded_len(text.as_bytes()), out.len(), "{text}");
        assert_eq!(huffman::decode(&out).expect("decoded"), text.as_bytes(), "{text}");
    }
}

#[test]
fn every_octet_round_trips_and_bad_padding_is_refused() {
    let every: Vec<u8> = (0..=255).collect();
    let mut out = Vec::new();
    huffman::encode(&every, &mut out);
    assert_eq!(huffman::decode(&out).expect("decoded"), every);
    assert!(huffman::decode(&[0b0000_0000]).is_err());
    assert!(huffman::decode(&[0b0000_0111, 0xff]).is_err());
    assert!(huffman::decode(&[0xff, 0xff, 0xff, 0xff]).is_err());
    assert!(huffman::decode(&[]).expect("empty").is_empty());
}

#[test]
fn the_code_agrees_with_another_reading_of_appendix_b() {
    let every: Vec<u8> = (0..=255).collect();
    let mut out = Vec::new();
    huffman::encode(&every, &mut out);
    let read = hpack::huffman::HuffmanDecoder::new().decode(&out).expect("decoded");
    assert_eq!(read, every);
}

fn written(value: usize, prefix: u8) -> Vec<u8> {
    let mut out = Vec::new();
    integer::encode(value, prefix, 0, &mut out);
    out
}

#[test]
fn the_integers_of_appendix_c_1() {
    assert_eq!(written(10, 5), [0b0_1010]);
    assert_eq!(written(1337, 5), [0b1_1111, 0b1001_1010, 0b0000_1010]);
    assert_eq!(written(42, 8), [0b0010_1010]);
    assert_eq!(integer::decode(&[0b1110_1010], 5).expect("10"), (10, 1));
    assert_eq!(integer::decode(&[0x1f, 0x9a, 0x0a, 0xff], 5).expect("1337"), (1337, 3));
    assert_eq!(integer::decode(&[42], 8).expect("42"), (42, 1));
}

#[test]
fn a_value_at_the_limit_continues_and_a_broken_one_is_refused() {
    assert_eq!(written(31, 5), [31, 0]);
    for value in [0, 30, 31, 127, 128, 4096, 1 << 20, integer::LARGEST] {
        assert_eq!(integer::decode(&written(value, 5), 5).expect("read").0, value);
    }
    assert!(integer::decode(&[], 5).is_err());
    assert!(integer::decode(&[0x1f, 0x80], 5).is_err());
    assert!(integer::decode(&[0x1f, 0xff, 0xff, 0xff, 0xff, 0xff, 0x01], 5).is_err());
}

#[test]
fn a_string_is_its_length_and_its_octets_raw_or_coded() {
    let mut raw = Vec::new();
    literal::encode("custom-key", false, &mut raw);
    assert_eq!(raw[0], 0x0a);
    assert_eq!(&raw[1..], b"custom-key");
    let mut coded = Vec::new();
    literal::encode("custom-key", true, &mut coded);
    assert_eq!(coded[0], 0x88);
    for wire in [raw, coded] {
        assert_eq!(literal::decode(&wire).expect("read"), ("custom-key".to_string(), wire.len()));
    }
    assert!(literal::decode(&[0x05, b'a']).is_err());
    assert!(literal::decode(&[0x01, 0xff]).is_err());
}

#[test]
fn the_static_table_is_appendix_a_and_the_dynamic_follows_it() {
    let mut table = Table::new(4096);
    assert_eq!(table.get(1).expect("1"), (":authority", ""));
    assert_eq!(table.get(61).expect("61"), ("www-authenticate", ""));
    assert!(table.get(0).is_err());
    assert!(table.get(62).is_err());
    table.insert("custom-key".into(), "custom-header".into());
    assert_eq!(table.get(62).expect("62"), ("custom-key", "custom-header"));
    assert_eq!(table.size(), 55);
    assert_eq!(table.find(":method", "GET"), Some(Found::Field(2)));
    assert_eq!(table.find(":method", "PUT"), Some(Found::Name(2)));
    assert_eq!(table.find("custom-key", "custom-header"), Some(Found::Field(62)));
    assert_eq!(table.find("custom-key", "other"), Some(Found::Name(62)));
    assert_eq!(table.find("x-other", ""), None);
}

#[test]
fn the_oldest_is_evicted_and_an_entry_larger_than_the_table_empties_it() {
    let mut table = Table::new(100);
    table.insert("a".into(), "1".repeat(20));
    table.insert("b".into(), "2".repeat(20));
    assert_eq!(table.dynamic().len(), 1);
    assert_eq!(table.get(62).expect("b").0, "b");
    table.resize(40);
    assert_eq!((table.size(), table.dynamic().len()), (0, 0));
    table.resize(100);
    table.insert("c".into(), "3".repeat(10));
    table.insert("d".into(), "4".repeat(100));
    assert_eq!((table.size(), table.dynamic().len()), (0, 0));
}

#[test]
fn what_is_encoded_decodes_to_the_same_list_on_either_side() {
    let fields = [
        (":method", "POST"),
        (":path", "/orders"),
        ("content-type", "application/json"),
        ("x-trace", "abc"),
        ("x-trace", "abc"),
    ];
    for huffman in [false, true] {
        let mut encoder = Encoder::new(4096, huffman);
        let mut decoder = Decoder::new(4096);
        for _ in 0..3 {
            let block = encoder.encode(&fields);
            assert_eq!(decoder.decode(&block).expect("decoded"), list(&fields));
        }
    }
}

#[test]
fn an_index_past_the_table_is_refused_with_its_number() {
    let table = Table::new(4096);
    assert_eq!(table.get(62).expect_err("past").message, "no header at index 62");
    assert_eq!(table.get(0).expect_err("zero").message, "no header at index 0");
}
