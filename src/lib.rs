//! A DHCPv4 client and server core: the wire codec, the options model, the
//! client's request/retry decisions and the server's lease table.

pub mod bounded;
pub mod client;
pub mod codec;
pub mod error;
pub mod options;
pub mod server;

pub use error::Error;
