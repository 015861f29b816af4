//! Verified core of the S5 software switch: the host side of the packet
//! parser ABI, the simple switch parse program, the forwarding decisions of
//! the data plane and the frame logic of the test packet generator.

pub mod forward;
pub mod parser;
pub mod pktgen;
pub mod simple_switch;
