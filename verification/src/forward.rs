//! Forwarding decisions of the data plane: interface lookup results and the
//! link-layer addresses it binds to and sends to.

use vstd::prelude::*;

verus! {

/// A link-layer address: interface index, hardware address length and the
/// hardware address (its unused bytes are zero).
#[derive(Debug, Clone, Copy)]
pub struct PacketAddr {
    pub ifindex: i32,
    pub halen: u8,
    pub addr: [u8; 8],
}

/// The interface index that the system reported for a name: `None` when it
/// reported 0, meaning no such interface.
pub fn interface_index(os_index: u32) -> (r: Option<i32>)
    ensures
        r is None <==> os_index == 0,
        r matches Some(index) ==> index == os_index as i32,
{
    if os_index == 0 {
        None
    } else {
        Some(os_index as i32)
    }
}

/// The address a socket binds to receive from (or send on) interface
/// `if_index`: no hardware address.
pub fn bind_addr(if_index: i32) -> (a: PacketAddr)
    ensures
        a.ifindex == if_index,
        a.halen == 0,
        a.addr@ == Seq::new(8, |i: int| 0u8),
{
    let a = PacketAddr { ifindex: if_index, halen: 0, addr: [0u8; 8] };
    assert(a.addr@ =~= Seq::new(8, |i: int| 0u8));
    a
}

/// The address of station `mac` on interface `if_index`.
pub fn unicast_addr(if_index: i32, mac: &[u8; 6]) -> (a: PacketAddr)
    ensures
        a.ifindex == if_index,
        a.halen == 6,
        a.addr@ == mac@ + seq![0u8, 0u8],
{
    let a = PacketAddr {
        ifindex: if_index,
        halen: 6,
        addr: [mac[0], mac[1], mac[2], mac[3], mac[4], mac[5], 0, 0],
    };
    assert(a.addr@ =~= mac@ + seq![0u8, 0u8]);
    a
}

/// Where the data plane sends a received packet of `len` bytes: nowhere when
/// the packet is empty; otherwise on `tx_index`, to the packet's destination
/// MAC when the packet holds one (all zeros when it is shorter than that).
pub fn forwarding_destination(tx_index: i32, pkt: &[u8], len: usize) -> (r: Option<PacketAddr>)
    requires
        len <= pkt@.len(),
    ensures
        r is None <==> len == 0,
        r matches Some(a) ==> {
            &&& a.ifindex == tx_index
            &&& a.halen == 6
            &&& a.addr@ == (if len >= 6 {
                pkt@.subrange(0, 6)
            } else {
                Seq::new(6, |i: int| 0u8)
            }) + seq![0u8, 0u8]
        },
{
    if len == 0 {
        return None;
    }
    if len >= 6 {
        let mac = [pkt[0], pkt[1], pkt[2], pkt[3], pkt[4], pkt[5]];
        assert(mac@ =~= pkt@.subrange(0, 6));
        Some(unicast_addr(tx_index, &mac))
    } else {
        let mac = [0u8; 6];
        assert(mac@ =~= Seq::new(6, |i: int| 0u8));
        Some(unicast_addr(tx_index, &mac))
    }
}

} // verus!
