use s5_dplane::forward::forwarding_destination;
use s5_dplane::parser::parser::Parser;
use s5_dplane::pktgen::{
    all_received, build_frame, count_received, frame_has_source, parse_hex_byte_exec, parse_mac,
    receive_step, receive_timeout, should_receive, try_parse_mac, MacError, RecvResult,
    FRAME_SIZE,
};
use s5_dplane::simple_switch::SimpleSwitch;

#[test]
fn default_macs_parse() {
    assert_eq!(parse_mac("ff:ff:ff:ff:ff:ff"), [0xff; 6]);
    assert_eq!(parse_mac("00:00:00:00:00:01"), [0, 0, 0, 0, 0, 1]);
}

#[test]
fn mac_in_either_case_parses() {
    assert_eq!(try_parse_mac("AA:bb:Cc:0d:E0:9f"), Ok([0xaa, 0xbb, 0xcc, 0x0d, 0xe0, 0x9f]));
}

#[test]
fn mac_fields_may_be_short_or_padded() {
    assert_eq!(try_parse_mac("1:2:3:4:5:6"), Ok([1, 2, 3, 4, 5, 6]));
    assert_eq!(try_parse_mac("0001:02:003:+4:05:6"), Ok([1, 2, 3, 4, 5, 6]));
}

#[test]
fn mac_with_bad_field_is_invalid_address() {
    assert_eq!(try_parse_mac("100:2:3:4:5:6"), Err(MacError::InvalidAddress));
    assert_eq!(try_parse_mac("g1:2:3:4:5:6"), Err(MacError::InvalidAddress));
    assert_eq!(try_parse_mac("1:2:3:4:5:-6"), Err(MacError::InvalidAddress));
    assert_eq!(try_parse_mac("1:2:3:4:5:"), Err(MacError::InvalidAddress));
    assert_eq!(try_parse_mac("1:2:3:4:5:+"), Err(MacError::InvalidAddress));
    assert_eq!(try_parse_mac(" 1:2:3:4:5:6"), Err(MacError::InvalidAddress));
    assert_eq!(try_parse_mac(""), Err(MacError::InvalidAddress));
    assert_eq!(try_parse_mac("01-02-03-04-05-06"), Err(MacError::InvalidAddress));
}

#[test]
fn mac_bad_field_wins_over_field_count() {
    assert_eq!(try_parse_mac("1:2:zz"), Err(MacError::InvalidAddress));
    assert_eq!(try_parse_mac("1:2:3:4:5:6:7:zz"), Err(MacError::InvalidAddress));
}

#[test]
fn mac_with_wrong_field_count_is_invalid_format() {
    assert_eq!(try_parse_mac("1:2:3:4:5"), Err(MacError::InvalidFormat));
    assert_eq!(try_parse_mac("1:2:3:4:5:6:7"), Err(MacError::InvalidFormat));
    assert_eq!(try_parse_mac("ff"), Err(MacError::InvalidFormat));
}

#[test]
fn hex_byte_agrees_with_from_str_radix() {
    let samples = [
        "", "+", "-", "0", "00", "0000000ff", "ff", "FF", "fF", "100", "256", "+0", "+ff", "++1",
        "-1", "-0", "g", "1g", " 1", "1 ", "7f", "80", "a", "é", "+100", "0x1",
    ];
    for p in samples.iter() {
        assert_eq!(parse_hex_byte_exec(p), u8::from_str_radix(p, 16).ok(), "field {:?}", p);
    }
    for v in 0..=255u32 {
        let lower = format!("{:x}", v);
        let upper = format!("{:02X}", v);
        assert_eq!(parse_hex_byte_exec(&lower), Some(v as u8));
        assert_eq!(parse_hex_byte_exec(&upper), Some(v as u8));
    }
}

#[test]
fn mac_text_round_trip() {
    let mac = [0x00, 0x1b, 0x2c, 0x3d, 0x4e, 0xff];
    let text = mac.iter().map(|b| format!("{:02x}", b)).collect::<Vec<_>>().join(":");
    assert_eq!(text, "00:1b:2c:3d:4e:ff");
    assert_eq!(try_parse_mac(&text), Ok(mac));
}

#[test]
fn mac_text_upper_case_round_trip() {
    let mac = [0x00, 0x1b, 0x2c, 0x3d, 0x4e, 0xff];
    let text = mac.iter().map(|b| format!("{:02X}", b)).collect::<Vec<_>>().join(":");
    assert_eq!(text, "00:1B:2C:3D:4E:FF");
    assert_eq!(parse_mac(&text), mac);
}

#[test]
fn receive_loop_stop_rule() {
    assert!(should_receive(0, 3, true));
    assert!(!should_receive(3, 3, true));
    assert!(!should_receive(1, 3, false));
    let src = [9u8; 6];
    let own = build_frame(&[0xff; 6], &src, 1);
    let other = build_frame(&[0xff; 6], &[8u8; 6], 1);
    assert_eq!(receive_step(0, 2, RecvResult::Frame(own.len()), &own, &src), (1, true));
    assert_eq!(receive_step(1, 2, RecvResult::Frame(other.len()), &other, &src), (1, true));
    assert_eq!(receive_step(1, 2, RecvResult::Frame(13), &own, &src), (1, true));
    assert_eq!(receive_step(1, 2, RecvResult::TimedOut, &own, &src), (1, false));
    assert_eq!(receive_step(1, 2, RecvResult::Failed, &own, &src), (1, false));
}

#[test]
fn frame_layout() {
    let dst = [0xff; 6];
    let src = [0, 0, 0, 0, 0, 1];
    let f = build_frame(&dst, &src, 0x0102_0304);
    assert_eq!(f.len(), FRAME_SIZE);
    assert_eq!(&f[0..6], &dst);
    assert_eq!(&f[6..12], &src);
    assert_eq!(&f[12..14], &[0x08, 0x00]);
    for j in 14..60 {
        assert_eq!(f[j], [1u8, 2, 3, 4][(j - 14) % 4]);
    }
}

#[test]
fn frame_sequence_uses_low_32_bits() {
    let f = build_frame(&[1; 6], &[2; 6], 0x1_0000_0005);
    assert_eq!(&f[14..22], &[0, 0, 0, 5, 0, 0, 0, 5]);
    assert_eq!(f[59], 0); // (59 - 14) % 4 == 1
    let g = build_frame(&[1; 6], &[2; 6], 0);
    assert!(g[14..].iter().all(|&b| b == 0));
}

#[test]
fn own_frames_are_recognised() {
    let src = [0, 0, 0, 0, 0, 1];
    let f = build_frame(&[0xff; 6], &src, 7);
    assert!(frame_has_source(&f, f.len(), &src));
    assert!(!frame_has_source(&f, f.len(), &[0, 0, 0, 0, 0, 2]));
    assert!(!frame_has_source(&f, 13, &src));
    assert!(frame_has_source(&f, 14, &src));
}

#[test]
fn receive_tally() {
    let src = [9u8; 6];
    let own = build_frame(&[0xff; 6], &src, 1);
    let other = build_frame(&[0xff; 6], &[8u8; 6], 1);
    let mut n = 0;
    n = count_received(n, 3, &own, own.len(), &src);
    n = count_received(n, 3, &other, other.len(), &src);
    n = count_received(n, 3, &own, 10, &src);
    assert_eq!(n, 1);
    n = count_received(n, 3, &own, own.len(), &src);
    n = count_received(n, 3, &own, own.len(), &src);
    assert_eq!(n, 3);
    assert!(all_received(n, 3));
    assert!(!all_received(2, 3));
}

#[test]
fn timeout_split() {
    assert_eq!(receive_timeout(1000), (1, 0));
    assert_eq!(receive_timeout(1500), (1, 500_000));
    assert_eq!(receive_timeout(999), (0, 999_000));
    assert_eq!(receive_timeout(0), (0, 0));
    assert_eq!(receive_timeout(u64::MAX), ((u64::MAX / 1000) as i64, 615_000));
}

#[test]
fn generated_frames_pass_the_switch_and_keep_their_destination() {
    let dst = [0x02, 0x11, 0x22, 0x33, 0x44, 0x55];
    let mut parser = Parser::new(SimpleSwitch);
    for seq in [0u64, 1, 0xffff_ffff, 0x1_0000_0000] {
        let f = build_frame(&dst, &[0, 0, 0, 0, 0, 1], seq);
        assert!(parser.parse(&f, f.len()));
        let dest = forwarding_destination(9, &f, f.len()).unwrap();
        assert_eq!(dest.ifindex, 9);
        assert_eq!(dest.halen, 6);
        assert_eq!(dest.addr, [0x02, 0x11, 0x22, 0x33, 0x44, 0x55, 0, 0]);
    }
}
