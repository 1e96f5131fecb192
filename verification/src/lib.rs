//! A codec for the RESP2 wire protocol: values, a frame reader, a decoder,
//! an encoder, and the decisions of the per-connection loop.

pub mod connection;
pub mod encoder;
pub mod frame;
pub mod laws;
pub mod number;
pub mod resp;
pub mod text;
pub mod value;
