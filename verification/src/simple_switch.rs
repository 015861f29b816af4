//! The simple switch parse program: it forwards IPv4 and IPv6 Ethernet
//! frames and drops everything else.

use vstd::prelude::*;

use crate::parser::parser::ParseProgram;
use crate::parser::runtime_native_api::{
    s5_sys_pkt_drop, s5_sys_pkt_get_len, s5_sys_pkt_read, ParserArgs,
};

verus! {

/// EtherType of IPv4.
pub const ETHERTYPE_IPV4: u16 = 0x0800;

/// EtherType of IPv6.
pub const ETHERTYPE_IPV6: u16 = 0x86DD;

/// Length of an Ethernet header: destination MAC, source MAC, EtherType.
pub const ETHERNET_HEADER_LEN: i32 = 14;

/// The EtherType of a frame: bytes 12 and 13, big endian.
pub open spec fn ethertype(frame: Seq<u8>) -> int {
    frame[12] * 256 + frame[13]
}

/// Whether the switch forwards `frame`: its length, as the 32-bit value the
/// program reads, covers an Ethernet header, and it carries IPv4 or IPv6.
pub open spec fn forwards(frame: Seq<u8>) -> bool {
    &&& frame.len() as i32 >= ETHERNET_HEADER_LEN
    &&& (ethertype(frame) == ETHERTYPE_IPV4 || ethertype(frame) == ETHERTYPE_IPV6)
}

/// Parser entry point: returns whether the packet is forwarded, and drops it
/// through the native API when it is not.
pub fn parse(args: &mut ParserArgs) -> (accept: bool)
    ensures
        accept == forwards(old(args).packet()),
        final(args).packet() == old(args).packet(),
        final(args).accepted() == (old(args).accepted() && accept),
{
    let pkt_len = s5_sys_pkt_get_len(args);
    // Frames shorter than an Ethernet header are dropped.
    if pkt_len < ETHERNET_HEADER_LEN {
        s5_sys_pkt_drop(args);
        return false;
    }
    let ghost frame = args.packet();
    assert(frame.len() >= 14) by {
        if frame.len() < 14 {
            assert(frame.len() as i32 == frame.len());
        }
    }
    let ethertype_hi = s5_sys_pkt_read(args, 12) as u16;
    let ethertype_lo = s5_sys_pkt_read(args, 13) as u16;
    let ethertype = (ethertype_hi << 8) | ethertype_lo;
    assert(ethertype == ethertype_hi * 256 + ethertype_lo) by (bit_vector)
        requires
            ethertype_hi < 256,
            ethertype_lo < 256,
            ethertype == (ethertype_hi << 8) | ethertype_lo,
    ;
    if ethertype == ETHERTYPE_IPV4 || ethertype == ETHERTYPE_IPV6 {
        return true;
    }
    s5_sys_pkt_drop(args);
    false
}

/// The switch forwards exactly the IPv4 and IPv6 frames that hold an
/// Ethernet header: shorter frames and other EtherTypes are dropped (frames
/// of 2^31 bytes or more are left out: their length does not fit the 32-bit
/// value the program reads).
pub proof fn lemma_forwards_exactly_ip_frames(frame: Seq<u8>)
    requires
        frame.len() <= i32::MAX,
    ensures
        forwards(frame) <==> (frame.len() >= 14 && (ethertype(frame) == 0x0800 || ethertype(
            frame,
        ) == 0x86DD)),
{
    assert(frame.len() as i32 == frame.len());
}

/// A frame of 14 to 2^31 - 1 bytes is forwarded exactly when its bytes 12
/// and 13 read `08 00` (IPv4) or `86 dd` (IPv6), whatever its length and its
/// other bytes.
pub proof fn lemma_forwards_by_ethertype_bytes(frame: Seq<u8>)
    requires
        14 <= frame.len() <= i32::MAX,
    ensures
        forwards(frame) <==> ((frame[12] == 0x08 && frame[13] == 0x00) || (frame[12] == 0x86
            && frame[13] == 0xdd)),
{
    assert(frame.len() as i32 == frame.len());
    let hi = frame[12];
    let lo = frame[13];
    assert(hi * 256 + lo == 0x0800 <==> (hi == 0x08 && lo == 0x00));
    assert(hi * 256 + lo == 0x86DD <==> (hi == 0x86 && lo == 0xdd));
}

/// Two frames of 14 to 2^31 - 1 bytes with equal bytes 12 and 13 are both
/// forwarded or both dropped: the length and the other bytes play no part.
pub proof fn lemma_verdict_depends_only_on_ethertype(f: Seq<u8>, g: Seq<u8>)
    requires
        14 <= f.len() <= i32::MAX,
        14 <= g.len() <= i32::MAX,
        f[12] == g[12],
        f[13] == g[13],
    ensures
        forwards(f) == forwards(g),
{
    lemma_forwards_by_ethertype_bytes(f);
    lemma_forwards_by_ethertype_bytes(g);
}

/// The simple switch program accepts a frame of 14 to 2^31 - 1 bytes exactly
/// when it is an IPv4 or IPv6 frame (bytes 12 and 13 read `08 00` or
/// `86 dd`), and accepts no frame shorter than an Ethernet header; so a
/// parser running it agrees with the switch on every packet.
pub proof fn lemma_simple_switch_program(packet: Seq<u8>)
    ensures
        SimpleSwitch.accepts(packet) == forwards(packet),
        14 <= packet.len() <= i32::MAX ==> (SimpleSwitch.accepts(packet) <==> ((packet[12] == 0x08
            && packet[13] == 0x00) || (packet[12] == 0x86 && packet[13] == 0xdd))),
        packet.len() < 14 ==> !SimpleSwitch.accepts(packet),
{
    if 14 <= packet.len() <= i32::MAX {
        lemma_forwards_by_ethertype_bytes(packet);
    }
    if packet.len() < 14 {
        lemma_short_frames_dropped(packet);
    }
}

/// No frame shorter than an Ethernet header is forwarded.
pub proof fn lemma_short_frames_dropped(frame: Seq<u8>)
    requires
        frame.len() < 14,
    ensures
        !forwards(frame),
{
    assert(frame.len() as i32 == frame.len());
}

/// The simple switch as a parse program that a `Parser` can run.
pub struct SimpleSwitch;

impl ParseProgram for SimpleSwitch {
    open spec fn accepts(&self, packet: Seq<u8>) -> bool {
        forwards(packet)
    }

    fn parse(&self, args: &mut ParserArgs) -> (accept: bool) {
        crate::simple_switch::parse(args)
    }
}

} // verus!
