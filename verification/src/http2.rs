//! HTTP/2 on the wire, RFC 9113: the frames of section 6, the settings,
//! the stream states and flow control, the messages of section 8, and the
//! header compression of RFC 7541 (`hpack`).

pub mod error;
pub mod frame;
pub mod hpack;
pub mod client;
pub mod connection;
pub mod message;
pub mod preface;
pub mod read_back;
pub mod receive;
pub mod server;
pub mod settings;
pub mod stream;
pub mod window;
