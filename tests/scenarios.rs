use edge_dhcp::client::{self, offer_target, request_outcome, Client};
use edge_dhcp::codec::{MessageType, Packet};
use edge_dhcp::options::{discover_options, farewell_options, request_options, Settings};
use edge_dhcp::server::{self, Server};
use edge_dhcp::Error;

const SERVER_IP: u32 = 0xC0A8_0101; // 192.168.1.1
const IP_10: u32 = 0xC0A8_010A;
const IP_11: u32 = 0xC0A8_010B;
const IP_12: u32 = 0xC0A8_010C;
const MAC_1: [u8; 6] = [0x02, 0, 0, 0, 0, 0x01];
const MAC_2: [u8; 6] = [0x02, 0, 0, 0, 0, 0x02];
const XID: u32 = 0xDEAD_BEEF;
const HOUR_MS: u64 = 3_600_000;

fn server_conf(start: u32, end: u32, lease_ms: u64) -> server::Configuration {
    server::Configuration {
        ip: SERVER_IP,
        gateway: Some(SERVER_IP),
        subnet: Some(0xFFFF_FF00),
        dns1: Some(0x0808_0808),
        dns2: None,
        range_start: start,
        range_end: end,
        lease_duration: lease_ms,
    }
}

/// Sends `packet` to the server through one shared buffer and returns what the
/// client makes of the reply, if one came.
fn exchange<const N: usize>(
    srv: &mut Server<N>,
    cl: &Client,
    packet: &Packet,
    now: u64,
    expected: &[MessageType],
) -> Option<(MessageType, Settings)> {
    let mut buf = [0u8; 1024];
    let n = packet.encode(&mut buf).unwrap();
    let reply = srv.handle(&mut buf, n, now).unwrap();
    reply.map(|m| cl.accept(&buf[..m], packet.xid, expected).unwrap().unwrap())
}

fn discover<const N: usize>(srv: &mut Server<N>, cl: &Client, xid: u32, now: u64) -> Option<Settings> {
    let p = Packet::new_request(&cl.mac, xid, 0, None, discover_options(None));
    exchange(srv, cl, &p, now, &[MessageType::Offer]).map(|(mt, s)| {
        assert_eq!(mt, MessageType::Offer);
        s
    })
}

fn request<const N: usize>(
    srv: &mut Server<N>,
    cl: &Client,
    xid: u32,
    server_ip: u32,
    our_ip: u32,
    now: u64,
) -> Result<Settings, Error<()>> {
    let p = Packet::new_request(&cl.mac, xid, 0, Some(our_ip), request_options(&cl.mac, server_ip, our_ip));
    let (mt, s) = exchange(srv, cl, &p, now, &[MessageType::Ack, MessageType::Nak]).unwrap();
    request_outcome(mt, s)
}

fn happy_path() -> (Server<4>, Client) {
    let mut srv: Server<4> = Server::new(&server_conf(IP_10, IP_12, HOUR_MS));
    let cl = Client::new(&client::Configuration::new(MAC_1));
    let offer = discover(&mut srv, &cl, XID, 0).unwrap();
    assert_eq!(offer.ip, IP_10);
    assert_eq!(offer.server_ip, Some(SERVER_IP));
    let (server_ip, our_ip) = offer_target(&offer).unwrap();
    let acked = request(&mut srv, &cl, XID, server_ip, our_ip, 0).unwrap();
    assert_eq!(acked.ip, IP_10);
    assert_eq!(acked.server_ip, Some(SERVER_IP));
    assert_eq!(acked.lease_time, Some(3600));
    assert_eq!(acked.subnet, Some(0xFFFF_FF00));
    assert_eq!(acked.router, Some(SERVER_IP));
    assert_eq!(acked.dns1, Some(0x0808_0808));
    assert_eq!(acked.dns2, None);
    (srv, cl)
}

#[test]
fn happy_path_discover_request() {
    let (srv, _) = happy_path();
    let l = srv.lease(IP_10).unwrap();
    assert_eq!(l.mac, MAC_1);
    assert_eq!(l.expires, HOUR_MS);
    assert!(srv.lease(IP_11).is_none());
    assert!(srv.lease(IP_12).is_none());
    assert_eq!(srv.current_lease(&MAC_1), Some(IP_10));
}

#[test]
fn request_for_address_leased_to_another_mac_is_refused() {
    let (mut srv, _) = happy_path();
    let other = Client::new(&client::Configuration::new(MAC_2));
    let r = request(&mut srv, &other, 7, SERVER_IP, IP_10, 1000);
    assert!(matches!(r, Err(Error::Nak)));
    let l = srv.lease(IP_10).unwrap();
    assert_eq!(l.mac, MAC_1);
    assert_eq!(l.expires, HOUR_MS);
    assert_eq!(srv.current_lease(&MAC_2), None);
}

#[test]
fn retries_exhausted_gives_up_after_three_attempts() {
    let conf = client::Configuration { mac: MAC_1, retries: 3, timeout: 10 };
    let cl = Client::new(&conf);
    let mut ex = cl.begin(XID, 100).unwrap();
    let mut sent = vec![ex.secs(100)];
    let mut now = 100;
    let mut more = true;
    while more {
        now += cl.timeout;
        more = ex.next_attempt();
        if more {
            sent.push(ex.secs(now));
        }
    }
    assert_eq!(sent.len(), 3);
    assert_eq!(ex.attempt, 3);
    assert_eq!(ex.xid, XID);
    assert!(sent.windows(2).all(|w| w[0] <= w[1]));
    assert_eq!(now - 100, 30);
}

#[test]
fn no_attempt_with_zero_retries() {
    let conf = client::Configuration { mac: MAC_1, retries: 0, timeout: 10 };
    assert!(Client::new(&conf).begin(XID, 0).is_none());
}

#[test]
fn late_offer_with_other_xid_is_passed_over() {
    let mut srv: Server<4> = Server::new(&server_conf(IP_10, IP_12, HOUR_MS));
    let cl = Client::new(&client::Configuration::new(MAC_1));
    let mut buf = [0u8; 1024];
    // An OFFER for another transaction.
    let foreign = Packet::new_request(&MAC_1, XID ^ 1, 0, None, discover_options(None));
    let n = foreign.encode(&mut buf).unwrap();
    let m = srv.handle(&mut buf, n, 0).unwrap().unwrap();
    assert_eq!(cl.accept(&buf[..m], XID, &[MessageType::Offer]).unwrap(), None);
    // The right one, in the same window.
    let offer = discover(&mut srv, &cl, XID, 0).unwrap();
    assert_eq!(offer.ip, IP_10);
    let acked = request(&mut srv, &cl, XID, SERVER_IP, offer.ip, 0).unwrap();
    assert_eq!(acked.ip, IP_10);
}

#[test]
fn pool_exhaustion_reclaims_expired_lease() {
    let mut srv: Server<4> = Server::new(&server_conf(IP_10, IP_10, 1000));
    let a = Client::new(&client::Configuration::new(MAC_1));
    let b = Client::new(&client::Configuration::new(MAC_2));
    let offer = discover(&mut srv, &a, 1, 0).unwrap();
    assert_eq!(request(&mut srv, &a, 1, SERVER_IP, offer.ip, 0).unwrap().ip, IP_10);
    // While A's lease runs, B is offered nothing.
    assert!(discover(&mut srv, &b, 2, 500).is_none());
    // Once it has expired, B gets the address.
    let offer = discover(&mut srv, &b, 3, 5000).unwrap();
    assert_eq!(offer.ip, IP_10);
    assert_eq!(request(&mut srv, &b, 3, SERVER_IP, offer.ip, 5000).unwrap().ip, IP_10);
    assert_eq!(srv.lease(IP_10).unwrap().mac, MAC_2);
    assert_eq!(srv.current_lease(&MAC_1), None);
}

#[test]
fn release_clears_lease() {
    let (mut srv, cl) = happy_path();
    let p = Packet::new_request(
        &cl.mac,
        9,
        0,
        Some(IP_10),
        farewell_options(MessageType::Release, &cl.mac, SERVER_IP),
    );
    let mut buf = [0u8; 1024];
    let n = p.encode(&mut buf).unwrap();
    assert_eq!(srv.handle(&mut buf, n, 10).unwrap(), None);
    assert!(srv.lease(IP_10).is_none());
    let other = Client::new(&client::Configuration::new(MAC_2));
    assert_eq!(discover(&mut srv, &other, 10, 20).unwrap().ip, IP_10);
}

#[test]
fn decline_clears_lease() {
    let (mut srv, cl) = happy_path();
    let p = Packet::new_request(
        &cl.mac,
        9,
        0,
        Some(IP_10),
        farewell_options(MessageType::Decline, &cl.mac, SERVER_IP),
    );
    let mut buf = [0u8; 1024];
    let n = p.encode(&mut buf).unwrap();
    assert_eq!(srv.handle(&mut buf, n, 10).unwrap(), None);
    assert_eq!(srv.current_lease(&MAC_1), None);
}

#[test]
fn rediscover_offers_current_lease() {
    let (mut srv, cl) = happy_path();
    assert_eq!(discover(&mut srv, &cl, 5, 10).unwrap().ip, IP_10);
}

#[test]
fn discover_honours_available_requested_address() {
    let mut srv: Server<4> = Server::new(&server_conf(IP_10, IP_12, HOUR_MS));
    let cl = Client::new(&client::Configuration::new(MAC_1));
    let p = Packet::new_request(&MAC_1, 4, 0, None, discover_options(Some(IP_12)));
    let (_, s) = exchange(&mut srv, &cl, &p, 0, &[MessageType::Offer]).unwrap();
    assert_eq!(s.ip, IP_12);
}

#[test]
fn request_for_other_server_is_ignored() {
    let mut srv: Server<4> = Server::new(&server_conf(IP_10, IP_12, HOUR_MS));
    let p = Packet::new_request(&MAC_1, 4, 0, Some(IP_10), request_options(&MAC_1, SERVER_IP + 1, IP_10));
    let mut buf = [0u8; 1024];
    let n = p.encode(&mut buf).unwrap();
    assert_eq!(srv.handle(&mut buf, n, 0).unwrap(), None);
    assert!(srv.lease(IP_10).is_none());
}

#[test]
fn request_outside_pool_is_refused() {
    let mut srv: Server<4> = Server::new(&server_conf(IP_10, IP_12, HOUR_MS));
    let cl = Client::new(&client::Configuration::new(MAC_1));
    let r = request(&mut srv, &cl, 4, SERVER_IP, IP_12 + 1, 0);
    assert!(matches!(r, Err(Error::Nak)));
}

#[test]
fn full_table_refuses_new_lease() {
    let mut srv: Server<1> = Server::new(&server_conf(IP_10, IP_12, HOUR_MS));
    let a = Client::new(&client::Configuration::new(MAC_1));
    let b = Client::new(&client::Configuration::new(MAC_2));
    assert_eq!(request(&mut srv, &a, 1, SERVER_IP, IP_10, 0).unwrap().ip, IP_10);
    assert!(matches!(request(&mut srv, &b, 2, SERVER_IP, IP_11, 0), Err(Error::Nak)));
}

#[test]
fn malformed_frame_is_dropped_by_server() {
    let mut srv: Server<4> = Server::new(&server_conf(IP_10, IP_12, HOUR_MS));
    let mut buf = [0u8; 300];
    assert_eq!(srv.handle(&mut buf, 300, 0).unwrap(), None);
}

#[test]
fn lease_table_operations() {
    let mut srv: Server<2> = Server::new(&server_conf(IP_10, IP_12, 1000));
    assert!(srv.is_available(&MAC_1, IP_10, 0));
    assert!(!srv.is_available(&MAC_1, IP_12 + 1, 0));
    assert!(srv.add_lease(IP_10, MAC_1, 100));
    assert!(srv.is_available(&MAC_1, IP_10, 50));
    assert!(!srv.is_available(&MAC_2, IP_10, 50));
    assert!(srv.is_available(&MAC_2, IP_10, 101));
    // Rebinding a MAC drops its earlier lease.
    assert!(srv.add_lease(IP_11, MAC_1, 200));
    assert!(srv.lease(IP_10).is_none());
    assert_eq!(srv.current_lease(&MAC_1), Some(IP_11));
    assert_eq!(srv.available(0), Some(IP_10));
    assert!(srv.add_lease(IP_10, MAC_2, 300));
    assert_eq!(srv.available(0), Some(IP_12));
    assert!(srv.remove_lease(&MAC_2));
    assert!(!srv.remove_lease(&MAC_2));
}

#[test]
fn error_from_format_error() {
    let e: Error<()> = Error::from(edge_dhcp::codec::FormatError::MissingCookie);
    assert!(matches!(e, Error::Format(edge_dhcp::codec::FormatError::MissingCookie)));
}

#[test]
fn add_lease_fails_only_when_full() {
    let mut srv: Server<1> = Server::new(&server_conf(IP_10, IP_12, 1000));
    assert!(srv.add_lease(IP_10, MAC_1, 100));
    // Full, new address, new MAC: refused, table unchanged.
    assert!(!srv.add_lease(IP_11, MAC_2, 100));
    assert_eq!(srv.lease(IP_10).unwrap().mac, MAC_1);
    assert!(srv.lease(IP_11).is_none());
    // Full, but the MAC holds the only entry: it moves.
    assert!(srv.add_lease(IP_11, MAC_1, 200));
    assert!(srv.lease(IP_10).is_none());
    // Full, but the address has an entry: it is rebound.
    assert!(srv.add_lease(IP_11, MAC_2, 300));
    assert_eq!(srv.lease(IP_11).unwrap().mac, MAC_2);
    assert_eq!(srv.current_lease(&MAC_1), None);
}
