//! Packet parser: the arguments a parse program sees, the native API it may
//! call, and the parser that runs a program on a packet.

pub mod parser;
pub mod runtime_native_api;
