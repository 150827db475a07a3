//! HPACK, RFC 7541: the header compression HTTP/2 writes every header
//! block in.

pub mod code;
pub mod decoder;
pub mod encoder;
pub mod huffman;
pub mod integer;
pub mod literal;
pub mod round_trip;
pub mod table;
