//! Wire-level command codec of a stream-broker client: typed requests and
//! responses turned into exact byte sequences and back.

pub mod codec;
pub mod error;
pub mod properties;
pub mod response;
pub mod types;
pub mod commands;
