//! The Huffman code of RFC 7541 Appendix B: for each octet and for
//! `EOS`, the code, most significant bit first, and its length in bits.

use vstd::prelude::*;

verus! {

/// The symbol that ends a string, which a string never holds.
pub const EOS: usize = 256;

/// The code of `symbol` and its length in bits (Appendix B).
pub open spec fn huffman_code(symbol: usize) -> (nat, nat) {
    match symbol {
        0 => (0x1ff8, 13),
        1 => (0x7fffd8, 23),
        2 => (0xfffffe2, 28),
        3 => (0xfffffe3, 28),
        4 => (0xfffffe4, 28),
        5 => (0xfffffe5, 28),
        6 => (0xfffffe6, 28),
        7 => (0xfffffe7, 28),
        8 => (0xfffffe8, 28),
        9 => (0xffffea, 24),
        10 => (0x3ffffffc, 30),
        11 => (0xfffffe9, 28),
        12 => (0xfffffea, 28),
        13 => (0x3ffffffd, 30),
        14 => (0xfffffeb, 28),
        15 => (0xfffffec, 28),
        16 => (0xfffffed, 28),
        17 => (0xfffffee, 28),
        18 => (0xfffffef, 28),
        19 => (0xffffff0, 28),
        20 => (0xffffff1, 28),
        21 => (0xffffff2, 28),
        22 => (0x3ffffffe, 30),
        23 => (0xffffff3, 28),
        24 => (0xffffff4, 28),
        25 => (0xffffff5, 28),
        26 => (0xffffff6, 28),
        27 => (0xffffff7, 28),
        28 => (0xffffff8, 28),
        29 => (0xffffff9, 28),
        30 => (0xffffffa, 28),
        31 => (0xffffffb, 28),
        32 => (0x14, 6),
        33 => (0x3f8, 10),
        34 => (0x3f9, 10),
        35 => (0xffa, 12),
        36 => (0x1ff9, 13),
        37 => (0x15, 6),
        38 => (0xf8, 8),
        39 => (0x7fa, 11),
        40 => (0x3fa, 10),
        41 => (0x3fb, 10),
        42 => (0xf9, 8),
        43 => (0x7fb, 11),
        44 => (0xfa, 8),
        45 => (0x16, 6),
        46 => (0x17, 6),
        47 => (0x18, 6),
        48 => (0x0, 5),
        49 => (0x1, 5),
        50 => (0x2, 5),
        51 => (0x19, 6),
        52 => (0x1a, 6),
        53 => (0x1b, 6),
        54 => (0x1c, 6),
        55 => (0x1d, 6),
        56 => (0x1e, 6),
        57 => (0x1f, 6),
        58 => (0x5c, 7),
        59 => (0xfb, 8),
        60 => (0x7ffc, 15),
        61 => (0x20, 6),
        62 => (0xffb, 12),
        63 => (0x3fc, 10),
        64 => (0x1ffa, 13),
        65 => (0x21, 6),
        66 => (0x5d, 7),
        67 => (0x5e, 7),
        68 => (0x5f, 7),
        69 => (0x60, 7),
        70 => (0x61, 7),
        71 => (0x62, 7),
        72 => (0x63, 7),
        73 => (0x64, 7),
        74 => (0x65, 7),
        75 => (0x66, 7),
        76 => (0x67, 7),
        77 => (0x68, 7),
        78 => (0x69, 7),
        79 => (0x6a, 7),
        80 => (0x6b, 7),
        81 => (0x6c, 7),
        82 => (0x6d, 7),
        83 => (0x6e, 7),
        84 => (0x6f, 7),
        85 => (0x70, 7),
        86 => (0x71, 7),
        87 => (0x72, 7),
        88 => (0xfc, 8),
        89 => (0x73, 7),
        90 => (0xfd, 8),
        91 => (0x1ffb, 13),
        92 => (0x7fff0, 19),
        93 => (0x1ffc, 13),
        94 => (0x3ffc, 14),
        95 => (0x22, 6),
        96 => (0x7ffd, 15),
        97 => (0x3, 5),
        98 => (0x23, 6),
        99 => (0x4, 5),
        100 => (0x24, 6),
        101 => (0x5, 5),
        102 => (0x25, 6),
        103 => (0x26, 6),
        104 => (0x27, 6),
        105 => (0x6, 5),
        106 => (0x74, 7),
        107 => (0x75, 7),
        108 => (0x28, 6),
        109 => (0x29, 6),
        110 => (0x2a, 6),
        111 => (0x7, 5),
        112 => (0x2b, 6),
        113 => (0x76, 7),
        114 => (0x2c, 6),
        115 => (0x8, 5),
        116 => (0x9, 5),
        117 => (0x2d, 6),
        118 => (0x77, 7),
        119 => (0x78, 7),
        120 => (0x79, 7),
        121 => (0x7a, 7),
        122 => (0x7b, 7),
        123 => (0x7ffe, 15),
        124 => (0x7fc, 11),
        125 => (0x3ffd, 14),
        126 => (0x1ffd, 13),
        127 => (0xffffffc, 28),
        128 => (0xfffe6, 20),
        129 => (0x3fffd2, 22),
        130 => (0xfffe7, 20),
        131 => (0xfffe8, 20),
        132 => (0x3fffd3, 22),
        133 => (0x3fffd4, 22),
        134 => (0x3fffd5, 22),
        135 => (0x7fffd9, 23),
        136 => (0x3fffd6, 22),
        137 => (0x7fffda, 23),
        138 => (0x7fffdb, 23),
        139 => (0x7fffdc, 23),
        140 => (0x7fffdd, 23),
        141 => (0x7fffde, 23),
        142 => (0xffffeb, 24),
        143 => (0x7fffdf, 23),
        144 => (0xffffec, 24),
        145 => (0xffffed, 24),
        146 => (0x3fffd7, 22),
        147 => (0x7fffe0, 23),
        148 => (0xffffee, 24),
        149 => (0x7fffe1, 23),
        150 => (0x7fffe2, 23),
        151 => (0x7fffe3, 23),
        152 => (0x7fffe4, 23),
        153 => (0x1fffdc, 21),
        154 => (0x3fffd8, 22),
        155 => (0x7fffe5, 23),
        156 => (0x3fffd9, 22),
        157 => (0x7fffe6, 23),
        158 => (0x7fffe7, 23),
        159 => (0xffffef, 24),
        160 => (0x3fffda, 22),
        161 => (0x1fffdd, 21),
        162 => (0xfffe9, 20),
        163 => (0x3fffdb, 22),
        164 => (0x3fffdc, 22),
        165 => (0x7fffe8, 23),
        166 => (0x7fffe9, 23),
        167 => (0x1fffde, 21),
        168 => (0x7fffea, 23),
        169 => (0x3fffdd, 22),
        170 => (0x3fffde, 22),
        171 => (0xfffff0, 24),
        172 => (0x1fffdf, 21),
        173 => (0x3fffdf, 22),
        174 => (0x7fffeb, 23),
        175 => (0x7fffec, 23),
        176 => (0x1fffe0, 21),
        177 => (0x1fffe1, 21),
        178 => (0x3fffe0, 22),
        179 => (0x1fffe2, 21),
        180 => (0x7fffed, 23),
        181 => (0x3fffe1, 22),
        182 => (0x7fffee, 23),
        183 => (0x7fffef, 23),
        184 => (0xfffea, 20),
        185 => (0x3fffe2, 22),
        186 => (0x3fffe3, 22),
        187 => (0x3fffe4, 22),
        188 => (0x7ffff0, 23),
        189 => (0x3fffe5, 22),
        190 => (0x3fffe6, 22),
        191 => (0x7ffff1, 23),
        192 => (0x3ffffe0, 26),
        193 => (0x3ffffe1, 26),
        194 => (0xfffeb, 20),
        195 => (0x7fff1, 19),
        196 => (0x3fffe7, 22),
        197 => (0x7ffff2, 23),
        198 => (0x3fffe8, 22),
        199 => (0x1ffffec, 25),
        200 => (0x3ffffe2, 26),
        201 => (0x3ffffe3, 26),
        202 => (0x3ffffe4, 26),
        203 => (0x7ffffde, 27),
        204 => (0x7ffffdf, 27),
        205 => (0x3ffffe5, 26),
        206 => (0xfffff1, 24),
        207 => (0x1ffffed, 25),
        208 => (0x7fff2, 19),
        209 => (0x1fffe3, 21),
        210 => (0x3ffffe6, 26),
        211 => (0x7ffffe0, 27),
        212 => (0x7ffffe1, 27),
        213 => (0x3ffffe7, 26),
        214 => (0x7ffffe2, 27),
        215 => (0xfffff2, 24),
        216 => (0x1fffe4, 21),
        217 => (0x1fffe5, 21),
        218 => (0x3ffffe8, 26),
        219 => (0x3ffffe9, 26),
        220 => (0xffffffd, 28),
        221 => (0x7ffffe3, 27),
        222 => (0x7ffffe4, 27),
        223 => (0x7ffffe5, 27),
        224 => (0xfffec, 20),
        225 => (0xfffff3, 24),
        226 => (0xfffed, 20),
        227 => (0x1fffe6, 21),
        228 => (0x3fffe9, 22),
        229 => (0x1fffe7, 21),
        230 => (0x1fffe8, 21),
        231 => (0x7ffff3, 23),
        232 => (0x3fffea, 22),
        233 => (0x3fffeb, 22),
        234 => (0x1ffffee, 25),
        235 => (0x1ffffef, 25),
        236 => (0xfffff4, 24),
        237 => (0xfffff5, 24),
        238 => (0x3ffffea, 26),
        239 => (0x7ffff4, 23),
        240 => (0x3ffffeb, 26),
        241 => (0x7ffffe6, 27),
        242 => (0x3ffffec, 26),
        243 => (0x3ffffed, 26),
        244 => (0x7ffffe7, 27),
        245 => (0x7ffffe8, 27),
        246 => (0x7ffffe9, 27),
        247 => (0x7ffffea, 27),
        248 => (0x7ffffeb, 27),
        249 => (0xffffffe, 28),
        250 => (0x7ffffec, 27),
        251 => (0x7ffffed, 27),
        252 => (0x7ffffee, 27),
        253 => (0x7ffffef, 27),
        254 => (0x7fffff0, 27),
        255 => (0x3ffffee, 26),
        _ => (0x3fffffff, 30),
    }
}

/// The code of `symbol`, an octet or `EOS`, and its length in bits.
pub fn code(symbol: usize) -> (r: (u32, u8))
    requires
        symbol <= EOS,
    ensures
        (r.0 as nat, r.1 as nat) == huffman_code(symbol),
{
    match symbol {
        0 => (0x1ff8, 13),
        1 => (0x7fffd8, 23),
        2 => (0xfffffe2, 28),
        3 => (0xfffffe3, 28),
        4 => (0xfffffe4, 28),
        5 => (0xfffffe5, 28),
        6 => (0xfffffe6, 28),
        7 => (0xfffffe7, 28),
        8 => (0xfffffe8, 28),
        9 => (0xffffea, 24),
        10 => (0x3ffffffc, 30),
        11 => (0xfffffe9, 28),
        12 => (0xfffffea, 28),
        13 => (0x3ffffffd, 30),
        14 => (0xfffffeb, 28),
        15 => (0xfffffec, 28),
        16 => (0xfffffed, 28),
        17 => (0xfffffee, 28),
        18 => (0xfffffef, 28),
        19 => (0xffffff0, 28),
        20 => (0xffffff1, 28),
        21 => (0xffffff2, 28),
        22 => (0x3ffffffe, 30),
        23 => (0xffffff3, 28),
        24 => (0xffffff4, 28),
        25 => (0xffffff5, 28),
        26 => (0xffffff6, 28),
        27 => (0xffffff7, 28),
        28 => (0xffffff8, 28),
        29 => (0xffffff9, 28),
        30 => (0xffffffa, 28),
        31 => (0xffffffb, 28),
        32 => (0x14, 6),
        33 => (0x3f8, 10),
        34 => (0x3f9, 10),
        35 => (0xffa, 12),
        36 => (0x1ff9, 13),
        37 => (0x15, 6),
        38 => (0xf8, 8),
        39 => (0x7fa, 11),
        40 => (0x3fa, 10),
        41 => (0x3fb, 10),
        42 => (0xf9, 8),
        43 => (0x7fb, 11),
        44 => (0xfa, 8),
        45 => (0x16, 6),
        46 => (0x17, 6),
        47 => (0x18, 6),
        48 => (0x0, 5),
        49 => (0x1, 5),
        50 => (0x2, 5),
        51 => (0x19, 6),
        52 => (0x1a, 6),
        53 => (0x1b, 6),
        54 => (0x1c, 6),
        55 => (0x1d, 6),
        56 => (0x1e, 6),
        57 => (0x1f, 6),
        58 => (0x5c, 7),
        59 => (0xfb, 8),
        60 => (0x7ffc, 15),
        61 => (0x20, 6),
        62 => (0xffb, 12),
        63 => (0x3fc, 10),
        64 => (0x1ffa, 13),
        65 => (0x21, 6),
        66 => (0x5d, 7),
        67 => (0x5e, 7),
        68 => (0x5f, 7),
        69 => (0x60, 7),
        70 => (0x61, 7),
        71 => (0x62, 7),
        72 => (0x63, 7),
        73 => (0x64, 7),
        74 => (0x65, 7),
        75 => (0x66, 7),
        76 => (0x67, 7),
        77 => (0x68, 7),
        78 => (0x69, 7),
        79 => (0x6a, 7),
        80 => (0x6b, 7),
        81 => (0x6c, 7),
        82 => (0x6d, 7),
        83 => (0x6e, 7),
        84 => (0x6f, 7),
        85 => (0x70, 7),
        86 => (0x71, 7),
        87 => (0x72, 7),
        88 => (0xfc, 8),
        89 => (0x73, 7),
        90 => (0xfd, 8),
        91 => (0x1ffb, 13),
        92 => (0x7fff0, 19),
        93 => (0x1ffc, 13),
        94 => (0x3ffc, 14),
        95 => (0x22, 6),
        96 => (0x7ffd, 15),
        97 => (0x3, 5),
        98 => (0x23, 6),
        99 => (0x4, 5),
        100 => (0x24, 6),
        101 => (0x5, 5),
        102 => (0x25, 6),
        103 => (0x26, 6),
        104 => (0x27, 6),
        105 => (0x6, 5),
        106 => (0x74, 7),
        107 => (0x75, 7),
        108 => (0x28, 6),
        109 => (0x29, 6),
        110 => (0x2a, 6),
        111 => (0x7, 5),
        112 => (0x2b, 6),
        113 => (0x76, 7),
        114 => (0x2c, 6),
        115 => (0x8, 5),
        116 => (0x9, 5),
        117 => (0x2d, 6),
        118 => (0x77, 7),
        119 => (0x78, 7),
        120 => (0x79, 7),
        121 => (0x7a, 7),
        122 => (0x7b, 7),
        123 => (0x7ffe, 15),
        124 => (0x7fc, 11),
        125 => (0x3ffd, 14),
        126 => (0x1ffd, 13),
        127 => (0xffffffc, 28),
        128 => (0xfffe6, 20),
        129 => (0x3fffd2, 22),
        130 => (0xfffe7, 20),
        131 => (0xfffe8, 20),
        132 => (0x3fffd3, 22),
        133 => (0x3fffd4, 22),
        134 => (0x3fffd5, 22),
        135 => (0x7fffd9, 23),
        136 => (0x3fffd6, 22),
        137 => (0x7fffda, 23),
        138 => (0x7fffdb, 23),
        139 => (0x7fffdc, 23),
        140 => (0x7fffdd, 23),
        141 => (0x7fffde, 23),
        142 => (0xffffeb, 24),
        143 => (0x7fffdf, 23),
        144 => (0xffffec, 24),
        145 => (0xffffed, 24),
        146 => (0x3fffd7, 22),
        147 => (0x7fffe0, 23),
        148 => (0xffffee, 24),
        149 => (0x7fffe1, 23),
        150 => (0x7fffe2, 23),
        151 => (0x7fffe3, 23),
        152 => (0x7fffe4, 23),
        153 => (0x1fffdc, 21),
        154 => (0x3fffd8, 22),
        155 => (0x7fffe5, 23),
        156 => (0x3fffd9, 22),
        157 => (0x7fffe6, 23),
        158 => (0x7fffe7, 23),
        159 => (0xffffef, 24),
        160 => (0x3fffda, 22),
        161 => (0x1fffdd, 21),
        162 => (0xfffe9, 20),
        163 => (0x3fffdb, 22),
        164 => (0x3fffdc, 22),
        165 => (0x7fffe8, 23),
        166 => (0x7fffe9, 23),
        167 => (0x1fffde, 21),
        168 => (0x7fffea, 23),
        169 => (0x3fffdd, 22),
        170 => (0x3fffde, 22),
        171 => (0xfffff0, 24),
        172 => (0x1fffdf, 21),
        173 => (0x3fffdf, 22),
        174 => (0x7fffeb, 23),
        175 => (0x7fffec, 23),
        176 => (0x1fffe0, 21),
        177 => (0x1fffe1, 21),
        178 => (0x3fffe0, 22),
        179 => (0x1fffe2, 21),
        180 => (0x7fffed, 23),
        181 => (0x3fffe1, 22),
        182 => (0x7fffee, 23),
        183 => (0x7fffef, 23),
        184 => (0xfffea, 20),
        185 => (0x3fffe2, 22),
        186 => (0x3fffe3, 22),
        187 => (0x3fffe4, 22),
        188 => (0x7ffff0, 23),
        189 => (0x3fffe5, 22),
        190 => (0x3fffe6, 22),
        191 => (0x7ffff1, 23),
        192 => (0x3ffffe0, 26),
        193 => (0x3ffffe1, 26),
        194 => (0xfffeb, 20),
        195 => (0x7fff1, 19),
        196 => (0x3fffe7, 22),
        197 => (0x7ffff2, 23),
        198 => (0x3fffe8, 22),
        199 => (0x1ffffec, 25),
        200 => (0x3ffffe2, 26),
        201 => (0x3ffffe3, 26),
        202 => (0x3ffffe4, 26),
        203 => (0x7ffffde, 27),
        204 => (0x7ffffdf, 27),
        205 => (0x3ffffe5, 26),
        206 => (0xfffff1, 24),
        207 => (0x1ffffed, 25),
        208 => (0x7fff2, 19),
        209 => (0x1fffe3, 21),
        210 => (0x3ffffe6, 26),
        211 => (0x7ffffe0, 27),
        212 => (0x7ffffe1, 27),
        213 => (0x3ffffe7, 26),
        214 => (0x7ffffe2, 27),
        215 => (0xfffff2, 24),
        216 => (0x1fffe4, 21),
        217 => (0x1fffe5, 21),
        218 => (0x3ffffe8, 26),
        219 => (0x3ffffe9, 26),
        220 => (0xffffffd, 28),
        221 => (0x7ffffe3, 27),
        222 => (0x7ffffe4, 27),
        223 => (0x7ffffe5, 27),
        224 => (0xfffec, 20),
        225 => (0xfffff3, 24),
        226 => (0xfffed, 20),
        227 => (0x1fffe6, 21),
        228 => (0x3fffe9, 22),
        229 => (0x1fffe7, 21),
        230 => (0x1fffe8, 21),
        231 => (0x7ffff3, 23),
        232 => (0x3fffea, 22),
        233 => (0x3fffeb, 22),
        234 => (0x1ffffee, 25),
        235 => (0x1ffffef, 25),
        236 => (0xfffff4, 24),
        237 => (0xfffff5, 24),
        238 => (0x3ffffea, 26),
        239 => (0x7ffff4, 23),
        240 => (0x3ffffeb, 26),
        241 => (0x7ffffe6, 27),
        242 => (0x3ffffec, 26),
        243 => (0x3ffffed, 26),
        244 => (0x7ffffe7, 27),
        245 => (0x7ffffe8, 27),
        246 => (0x7ffffe9, 27),
        247 => (0x7ffffea, 27),
        248 => (0x7ffffeb, 27),
        249 => (0xffffffe, 28),
        250 => (0x7ffffec, 27),
        251 => (0x7ffffed, 27),
        252 => (0x7ffffee, 27),
        253 => (0x7ffffef, 27),
        254 => (0x7fffff0, 27),
        255 => (0x3ffffee, 26),
        _ => (0x3fffffff, 30),
    }
}

/// How many codes Appendix B gives `width` bits.
pub open spec fn class_size(width: nat) -> nat {
    if width == 5 {
        10
    } else if width == 6 {
        26
    } else if width == 7 {
        32
    } else if width == 8 {
        6
    } else if width == 10 {
        5
    } else if width == 11 {
        3
    } else if width == 12 {
        2
    } else if width == 13 {
        6
    } else if width == 14 {
        2
    } else if width == 15 {
        3
    } else if width == 19 {
        3
    } else if width == 20 {
        8
    } else if width == 21 {
        13
    } else if width == 22 {
        26
    } else if width == 23 {
        29
    } else if width == 24 {
        12
    } else if width == 25 {
        4
    } else if width == 26 {
        15
    } else if width == 27 {
        19
    } else if width == 28 {
        29
    } else if width == 30 {
        4
    } else {
        0
    }
}

/// The first code of `width` bits: the code is canonical, each length's
/// codes consecutive and the next length's starting after them, doubled.
pub open spec fn first_code(width: nat) -> nat
    decreases width,
{
    if width <= 5 {
        0
    } else {
        2 * (first_code((width - 1) as nat) + class_size((width - 1) as nat))
    }
}

/// The symbol whose code is the `rank`-th of `width` bits.
pub open spec fn member(width: nat, rank: nat) -> usize {
    match (width * 32 + rank) as usize {
        160 => 48,
        161 => 49,
        162 => 50,
        163 => 97,
        164 => 99,
        165 => 101,
        166 => 105,
        167 => 111,
        168 => 115,
        169 => 116,
        192 => 32,
        193 => 37,
        194 => 45,
        195 => 46,
        196 => 47,
        197 => 51,
        198 => 52,
        199 => 53,
        200 => 54,
        201 => 55,
        202 => 56,
        203 => 57,
        204 => 61,
        205 => 65,
        206 => 95,
        207 => 98,
        208 => 100,
        209 => 102,
        210 => 103,
        211 => 104,
        212 => 108,
        213 => 109,
        214 => 110,
        215 => 112,
        216 => 114,
        217 => 117,
        224 => 58,
        225 => 66,
        226 => 67,
        227 => 68,
        228 => 69,
        229 => 70,
        230 => 71,
        231 => 72,
        232 => 73,
        233 => 74,
        234 => 75,
        235 => 76,
        236 => 77,
        237 => 78,
        238 => 79,
        239 => 80,
        240 => 81,
        241 => 82,
        242 => 83,
        243 => 84,
        244 => 85,
        245 => 86,
        246 => 87,
        247 => 89,
        248 => 106,
        249 => 107,
        250 => 113,
        251 => 118,
        252 => 119,
        253 => 120,
        254 => 121,
        255 => 122,
        256 => 38,
        257 => 42,
        258 => 44,
        259 => 59,
        260 => 88,
        261 => 90,
        320 => 33,
        321 => 34,
        322 => 40,
        323 => 41,
        324 => 63,
        352 => 39,
        353 => 43,
        354 => 124,
        384 => 35,
        385 => 62,
        416 => 0,
        417 => 36,
        418 => 64,
        419 => 91,
        420 => 93,
        421 => 126,
        448 => 94,
        449 => 125,
        480 => 60,
        481 => 96,
        482 => 123,
        608 => 92,
        609 => 195,
        610 => 208,
        640 => 128,
        641 => 130,
        642 => 131,
        643 => 162,
        644 => 184,
        645 => 194,
        646 => 224,
        647 => 226,
        672 => 153,
        673 => 161,
        674 => 167,
        675 => 172,
        676 => 176,
        677 => 177,
        678 => 179,
        679 => 209,
        680 => 216,
        681 => 217,
        682 => 227,
        683 => 229,
        684 => 230,
        704 => 129,
        705 => 132,
        706 => 133,
        707 => 134,
        708 => 136,
        709 => 146,
        710 => 154,
        711 => 156,
        712 => 160,
        713 => 163,
        714 => 164,
        715 => 169,
        716 => 170,
        717 => 173,
        718 => 178,
        719 => 181,
        720 => 185,
        721 => 186,
        722 => 187,
        723 => 189,
        724 => 190,
        725 => 196,
        726 => 198,
        727 => 228,
        728 => 232,
        729 => 233,
        736 => 1,
        737 => 135,
        738 => 137,
        739 => 138,
        740 => 139,
        741 => 140,
        742 => 141,
        743 => 143,
        744 => 147,
        745 => 149,
        746 => 150,
        747 => 151,
        748 => 152,
        749 => 155,
        750 => 157,
        751 => 158,
        752 => 165,
        753 => 166,
        754 => 168,
        755 => 174,
        756 => 175,
        757 => 180,
        758 => 182,
        759 => 183,
        760 => 188,
        761 => 191,
        762 => 197,
        763 => 231,
        764 => 239,
        768 => 9,
        769 => 142,
        770 => 144,
        771 => 145,
        772 => 148,
        773 => 159,
        774 => 171,
        775 => 206,
        776 => 215,
        777 => 225,
        778 => 236,
        779 => 237,
        800 => 199,
        801 => 207,
        802 => 234,
        803 => 235,
        832 => 192,
        833 => 193,
        834 => 200,
        835 => 201,
        836 => 202,
        837 => 205,
        838 => 210,
        839 => 213,
        840 => 218,
        841 => 219,
        842 => 238,
        843 => 240,
        844 => 242,
        845 => 243,
        846 => 255,
        864 => 203,
        865 => 204,
        866 => 211,
        867 => 212,
        868 => 214,
        869 => 221,
        870 => 222,
        871 => 223,
        872 => 241,
        873 => 244,
        874 => 245,
        875 => 246,
        876 => 247,
        877 => 248,
        878 => 250,
        879 => 251,
        880 => 252,
        881 => 253,
        882 => 254,
        896 => 2,
        897 => 3,
        898 => 4,
        899 => 5,
        900 => 6,
        901 => 7,
        902 => 8,
        903 => 11,
        904 => 12,
        905 => 14,
        906 => 15,
        907 => 16,
        908 => 17,
        909 => 18,
        910 => 19,
        911 => 20,
        912 => 21,
        913 => 23,
        914 => 24,
        915 => 25,
        916 => 26,
        917 => 27,
        918 => 28,
        919 => 29,
        920 => 30,
        921 => 31,
        922 => 127,
        923 => 220,
        924 => 249,
        960 => 10,
        961 => 13,
        962 => 22,
        963 => 256,
        _ => 0,
    }
}

/// The first codes of each length.
pub proof fn lemma_first_codes()
    ensures
        first_code(5) == 0,
        first_code(6) == 20,
        first_code(7) == 92,
        first_code(8) == 248,
        first_code(9) == 508,
        first_code(10) == 1016,
        first_code(11) == 2042,
        first_code(12) == 4090,
        first_code(13) == 8184,
        first_code(14) == 16380,
        first_code(15) == 32764,
        first_code(16) == 65534,
        first_code(17) == 131068,
        first_code(18) == 262136,
        first_code(19) == 524272,
        first_code(20) == 1048550,
        first_code(21) == 2097116,
        first_code(22) == 4194258,
        first_code(23) == 8388568,
        first_code(24) == 16777194,
        first_code(25) == 33554412,
        first_code(26) == 67108832,
        first_code(27) == 134217694,
        first_code(28) == 268435426,
        first_code(29) == 536870910,
        first_code(30) == 1073741820,
        first_code(31) == 2147483648,
{
    reveal_with_fuel(first_code, 28);
}

/// Each code of Appendix B is the canonical one: among those of its length
/// in order, and the symbol it names read back from its rank.
pub proof fn lemma_canonical(symbol: usize)
    requires
        symbol <= EOS,
    ensures
        first_code(huffman_code(symbol).1) <= huffman_code(symbol).0 < first_code(
            huffman_code(symbol).1,
        ) + class_size(huffman_code(symbol).1),
        member(
            huffman_code(symbol).1,
            (huffman_code(symbol).0 - first_code(huffman_code(symbol).1)) as nat,
        ) == symbol,
{
    lemma_first_codes();
}

} // verus!
