use edge_dhcp::codec::{DhcpOption, FormatError, MessageType, Packet};
use edge_dhcp::options::{discover_options, reply_options, request_options};

const MAC: [u8; 6] = [0x02, 0, 0, 0, 0, 0x01];

fn sample() -> Packet {
    let mut p = Packet::new_request(&MAC, 0xDEAD_BEEF, 7, Some(0xC0A8_010A), request_options(&MAC, 0xC0A8_0101, 0xC0A8_010A));
    p.options.push(DhcpOption::Router(vec![0x0A00_0001, 0x0A00_0002]));
    p.options.push(DhcpOption::Unrecognized(200, vec![1, 2, 3]));
    p
}

#[test]
fn encode_layout() {
    let p = Packet::new_request(&MAC, 0xDEAD_BEEF, 0x0102, None, discover_options(None));
    let mut buf = [0u8; 512];
    let n = p.encode(&mut buf).unwrap();
    assert_eq!(&buf[0..4], &[1, 1, 6, 0]);
    assert_eq!(&buf[4..8], &[0xDE, 0xAD, 0xBE, 0xEF]);
    assert_eq!(&buf[8..10], &[0x01, 0x02]);
    assert_eq!(&buf[10..12], &[0x80, 0x00]);
    assert_eq!(&buf[28..34], &MAC);
    assert_eq!(&buf[236..240], &[0x63, 0x82, 0x53, 0x63]);
    assert_eq!(&buf[240..243], &[53, 1, 1]);
    assert_eq!(&buf[243..249], &[55, 4, 1, 3, 6, 51]);
    assert_eq!(buf[249], 255);
    assert_eq!(n, 250);
}

#[test]
fn round_trip() {
    let p = sample();
    let mut buf = [0u8; 512];
    let n = p.encode(&mut buf).unwrap();
    let q = Packet::decode(&buf[..n]).unwrap();
    assert_eq!(q.reply, p.reply);
    assert_eq!(q.xid, p.xid);
    assert_eq!(q.secs, p.secs);
    assert_eq!(q.flags, p.flags);
    assert_eq!(q.ciaddr, p.ciaddr);
    assert_eq!(q.chaddr, p.chaddr);
    assert_eq!(format!("{:?}", q.options), format!("{:?}", p.options));
    let mut again = [0u8; 512];
    let m = q.encode(&mut again).unwrap();
    assert_eq!(&buf[..n], &again[..m]);
}

#[test]
fn missing_cookie() {
    let mut buf = [0u8; 300];
    buf[240] = 255;
    assert_eq!(Packet::decode(&buf).unwrap_err(), FormatError::MissingCookie);
}

#[test]
fn short_frame() {
    let buf = [0u8; 239];
    assert_eq!(Packet::decode(&buf).unwrap_err(), FormatError::BufferTooShort);
}

#[test]
fn missing_terminator() {
    let p = Packet::new_request(&MAC, 1, 0, None, discover_options(None));
    let mut buf = [0u8; 512];
    let n = p.encode(&mut buf).unwrap();
    assert_eq!(Packet::decode(&buf[..n - 1]).unwrap_err(), FormatError::MissingTerminator);
}

#[test]
fn truncated_option() {
    let p = Packet::new_request(&MAC, 1, 0, None, discover_options(None));
    let mut buf = [0u8; 512];
    let n = p.encode(&mut buf).unwrap();
    buf[241] = 200;
    assert_eq!(Packet::decode(&buf[..n]).unwrap_err(), FormatError::TruncatedOption);
}

#[test]
fn pad_and_unknown_options() {
    let p = Packet::new_request(&MAC, 1, 0, None, Vec::new());
    let mut buf = [0u8; 512];
    p.encode(&mut buf).unwrap();
    let tail = [0u8, 0, 99, 2, 7, 8, 53, 1, 5, 51, 3, 1, 2, 3, 255];
    buf[240..240 + tail.len()].copy_from_slice(&tail);
    let q = Packet::decode(&buf[..240 + tail.len()]).unwrap();
    assert_eq!(q.options.len(), 3);
    assert!(matches!(&q.options[0], DhcpOption::Unrecognized(99, b) if b == &vec![7, 8]));
    assert!(matches!(q.options[1], DhcpOption::MessageType(MessageType::Ack)));
    assert!(matches!(&q.options[2], DhcpOption::Unrecognized(51, b) if b == &vec![1, 2, 3]));
}

#[test]
fn encode_buffer_too_small() {
    let p = sample();
    let mut buf = [7u8; 100];
    assert_eq!(p.encode(&mut buf).unwrap_err(), FormatError::BufferTooShort);
    assert!(buf.iter().all(|&b| b == 7));
}

#[test]
fn encode_refuses_long_option() {
    let mut p = sample();
    p.options.push(DhcpOption::ClientIdentifier(vec![0; 300]));
    let mut buf = [0u8; 1024];
    assert_eq!(p.encode(&mut buf).unwrap_err(), FormatError::UnexpectedOptionLength);
}

#[test]
fn reply_options_for_nak_omit_configuration() {
    let o = reply_options(MessageType::Nak, 1, 60, &vec![2], Some(3), &vec![4, 5]);
    assert_eq!(o.len(), 3);
    let o = reply_options(MessageType::Ack, 1, 60, &vec![2], Some(3), &vec![4, 5]);
    assert_eq!(o.len(), 6);
    assert!(matches!(&o[5], DhcpOption::DomainNameServer(v) if v == &vec![4, 5]));
}

#[test]
fn parse_reply_requires_identity() {
    let req = Packet::new_request(&MAC, 5, 0, None, Vec::new());
    let reply = req.new_reply(Some(0x0A00_000A), reply_options(MessageType::Offer, 1, 60, &vec![], None, &vec![]));
    let (mt, s) = reply.parse_reply(&MAC, 5).unwrap();
    assert_eq!(mt, MessageType::Offer);
    assert_eq!(s.ip, 0x0A00_000A);
    assert_eq!(s.server_ip, Some(1));
    assert_eq!(s.lease_time, Some(60));
    assert!(reply.parse_reply(&MAC, 6).is_none());
    assert!(reply.parse_reply(&[2, 0, 0, 0, 0, 2], 5).is_none());
    assert!(req.parse_reply(&MAC, 5).is_none());
    let bare = req.new_reply(None, Vec::new());
    assert!(bare.parse_reply(&MAC, 5).is_none());
}

#[test]
fn typed_options_from_raw() {
    assert!(matches!(DhcpOption::from_raw(54, &[1, 2, 3, 4]), DhcpOption::ServerIdentifier(0x0102_0304)));
    assert!(matches!(DhcpOption::from_raw(54, &[1, 2, 3]), DhcpOption::Unrecognized(54, _)));
    assert!(matches!(DhcpOption::from_raw(53, &[9]), DhcpOption::Unrecognized(53, _)));
    assert!(matches!(DhcpOption::from_raw(3, &[1, 2, 3, 4, 5, 6, 7, 8]), DhcpOption::Router(ref v) if v == &vec![0x0102_0304, 0x0506_0708]));
}
