use s5_dplane::forward::{bind_addr, forwarding_destination, interface_index, unicast_addr};

#[test]
fn unknown_interface_has_no_index() {
    assert_eq!(interface_index(0), None);
    assert_eq!(interface_index(7), Some(7));
    assert_eq!(interface_index(u32::MAX), Some(-1));
}

#[test]
fn bind_address_has_no_hardware_address() {
    let a = bind_addr(6);
    assert_eq!(a.ifindex, 6);
    assert_eq!(a.halen, 0);
    assert_eq!(a.addr, [0; 8]);
}

#[test]
fn unicast_address() {
    let a = unicast_addr(3, &[1, 2, 3, 4, 5, 6]);
    assert_eq!(a.ifindex, 3);
    assert_eq!(a.halen, 6);
    assert_eq!(a.addr, [1, 2, 3, 4, 5, 6, 0, 0]);
}

#[test]
fn empty_packets_are_not_forwarded() {
    let buf = [1u8; 16];
    assert!(forwarding_destination(9, &buf, 0).is_none());
}

#[test]
fn short_packets_go_to_zero_mac() {
    let buf = [0xaau8; 16];
    let d = forwarding_destination(9, &buf, 5).unwrap();
    assert_eq!(d.ifindex, 9);
    assert_eq!(d.halen, 6);
    assert_eq!(d.addr, [0; 8]);
}

#[test]
fn packets_go_to_their_destination_mac() {
    let buf = [1u8, 2, 3, 4, 5, 6, 7, 8, 9];
    let d = forwarding_destination(4, &buf, 6).unwrap();
    assert_eq!(d.addr, [1, 2, 3, 4, 5, 6, 0, 0]);
    let d = forwarding_destination(4, &buf, 9).unwrap();
    assert_eq!(d.ifindex, 4);
    assert_eq!(d.addr, [1, 2, 3, 4, 5, 6, 0, 0]);
}
