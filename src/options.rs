//! Building option lists for requests and replies, and reading a reply's options
//! into settings.

use vstd::prelude::*;
use crate::codec::{
    be4, ips_bytes, mt_code, opt_raw, raws_of, DhcpOption, MessageType, Packet, CODE_CLIENT_ID,
    CODE_DNS, CODE_LEASE_TIME, CODE_MESSAGE_TYPE, CODE_PARAMETER_LIST, CODE_REQUESTED_IP,
    CODE_ROUTER, CODE_SERVER_ID, CODE_SUBNET_MASK, zeros, all_well_typed, well_typed, mt_of_code,
    sub4, lemma_be4, PacketView,
};

verus! {

/// The parameters a client asks for: subnet mask, router, DNS, lease time.
pub open spec fn parameter_codes() -> Seq<u8> {
    seq![CODE_SUBNET_MASK, CODE_ROUTER, CODE_DNS, CODE_LEASE_TIME]
}

pub open spec fn mt_raw(m: MessageType) -> (u8, Seq<u8>) {
    (CODE_MESSAGE_TYPE, seq![mt_code(m)])
}

pub open spec fn ip_raw(code: u8, ip: u32) -> (u8, Seq<u8>) {
    (code, be4(ip))
}

pub open spec fn prl_raw() -> (u8, Seq<u8>) {
    (CODE_PARAMETER_LIST, parameter_codes())
}

fn parameter_request_list() -> (r: DhcpOption)
    ensures
        opt_raw(r) == prl_raw(),
{
    let mut v: Vec<u8> = Vec::new();
    v.push(CODE_SUBNET_MASK);
    v.push(CODE_ROUTER);
    v.push(CODE_DNS);
    v.push(CODE_LEASE_TIME);
    assert(v@ =~= parameter_codes());
    DhcpOption::ParameterRequestList(v)
}

fn client_identifier(mac: &[u8; 6]) -> (r: DhcpOption)
    ensures
        opt_raw(r) == (CODE_CLIENT_ID, mac@),
{
    let mut v: Vec<u8> = Vec::new();
    let mut i: usize = 0;
    while i < 6
        invariant
            0 <= i <= 6,
            mac@.len() == 6,
            v@ == mac@.subrange(0, i as int),
        decreases 6 - i,
    {
        v.push(mac[i]);
        i = i + 1;
        assert(v@ =~= mac@.subrange(0, i as int));
    }
    assert(mac@.subrange(0, 6) =~= mac@);
    DhcpOption::ClientIdentifier(v)
}

/// The options of a DISCOVER, asking for `requested` where given.
pub fn discover_options(requested: Option<u32>) -> (r: Vec<DhcpOption>)
    ensures
        raws_of(r@) == seq![mt_raw(MessageType::Discover), prl_raw()] + match requested {
            Some(ip) => seq![ip_raw(CODE_REQUESTED_IP, ip)],
            None => Seq::empty(),
        },
{
    let mut v: Vec<DhcpOption> = Vec::new();
    v.push(DhcpOption::MessageType(MessageType::Discover));
    v.push(parameter_request_list());
    if let Some(ip) = requested {
        v.push(DhcpOption::RequestedIpAddress(ip));
    }
    assert(raws_of(v@) =~= seq![mt_raw(MessageType::Discover), prl_raw()] + match requested {
        Some(ip) => seq![ip_raw(CODE_REQUESTED_IP, ip)],
        None => Seq::empty(),
    });
    v
}

/// The options of a REQUEST for `our_ip` from `server_ip`.
pub fn request_options(mac: &[u8; 6], server_ip: u32, our_ip: u32) -> (r: Vec<DhcpOption>)
    ensures
        raws_of(r@) == seq![
            mt_raw(MessageType::Request),
            (CODE_CLIENT_ID, mac@),
            ip_raw(CODE_REQUESTED_IP, our_ip),
            ip_raw(CODE_SERVER_ID, server_ip),
            prl_raw(),
        ],
{
    let mut v: Vec<DhcpOption> = Vec::new();
    v.push(DhcpOption::MessageType(MessageType::Request));
    v.push(client_identifier(mac));
    v.push(DhcpOption::RequestedIpAddress(our_ip));
    v.push(DhcpOption::ServerIdentifier(server_ip));
    v.push(parameter_request_list());
    assert(raws_of(v@) =~= seq![
        mt_raw(MessageType::Request),
        (CODE_CLIENT_ID, mac@),
        ip_raw(CODE_REQUESTED_IP, our_ip),
        ip_raw(CODE_SERVER_ID, server_ip),
        prl_raw(),
    ]);
    v
}

/// The options of a RELEASE or a DECLINE (`mt`) sent to `server_ip`.
pub fn farewell_options(mt: MessageType, mac: &[u8; 6], server_ip: u32) -> (r: Vec<DhcpOption>)
    requires
        mt == MessageType::Release || mt == MessageType::Decline,
    ensures
        raws_of(r@) == seq![
            mt_raw(mt),
            (CODE_CLIENT_ID, mac@),
            ip_raw(CODE_SERVER_ID, server_ip),
            prl_raw(),
        ],
{
    let mut v: Vec<DhcpOption> = Vec::new();
    v.push(DhcpOption::MessageType(mt));
    v.push(client_identifier(mac));
    v.push(DhcpOption::ServerIdentifier(server_ip));
    v.push(parameter_request_list());
    assert(raws_of(v@) =~= seq![
        mt_raw(mt),
        (CODE_CLIENT_ID, mac@),
        ip_raw(CODE_SERVER_ID, server_ip),
        prl_raw(),
    ]);
    v
}

/// The options of a server reply: message type, server identifier and lease
/// time; then, but for a NAK, the subnet mask, routers and DNS servers where
/// there are any.
pub open spec fn reply_raws(
    mt: MessageType,
    server_ip: u32,
    lease_secs: u32,
    gateways: Seq<u32>,
    subnet: Option<u32>,
    dns: Seq<u32>,
) -> Seq<(u8, Seq<u8>)> {
    seq![mt_raw(mt), ip_raw(CODE_SERVER_ID, server_ip), ip_raw(CODE_LEASE_TIME, lease_secs)] + if mt
        == MessageType::Nak {
        Seq::empty()
    } else {
        (match subnet {
            Some(m) => seq![ip_raw(CODE_SUBNET_MASK, m)],
            None => Seq::empty(),
        }) + (if gateways.len() > 0 {
            seq![(CODE_ROUTER, ips_bytes(gateways))]
        } else {
            Seq::empty()
        }) + (if dns.len() > 0 {
            seq![(CODE_DNS, ips_bytes(dns))]
        } else {
            Seq::empty()
        })
    }
}

fn copy_ips(v: &[u32]) -> (r: Vec<u32>)
    ensures
        r@ == v@,
{
    let mut out: Vec<u32> = Vec::new();
    let mut i: usize = 0;
    while i < v.len()
        invariant
            0 <= i <= v@.len(),
            out@ == v@.subrange(0, i as int),
        decreases v@.len() - i,
    {
        out.push(v[i]);
        i = i + 1;
        assert(out@ =~= v@.subrange(0, i as int));
    }
    assert(v@.subrange(0, i as int) =~= v@);
    out
}

/// Builds the options of a server reply.
pub fn reply_options(
    mt: MessageType,
    server_ip: u32,
    lease_secs: u32,
    gateways: &[u32],
    subnet: Option<u32>,
    dns: &[u32],
) -> (r: Vec<DhcpOption>)
    ensures
        raws_of(r@) == reply_raws(mt, server_ip, lease_secs, gateways@, subnet, dns@),
{
    let mut v: Vec<DhcpOption> = Vec::new();
    v.push(DhcpOption::MessageType(mt));
    v.push(DhcpOption::ServerIdentifier(server_ip));
    v.push(DhcpOption::IpAddressLeaseTime(lease_secs));
    let ghost base = raws_of(v@);
    assert(base =~= seq![
        mt_raw(mt),
        ip_raw(CODE_SERVER_ID, server_ip),
        ip_raw(CODE_LEASE_TIME, lease_secs),
    ]);
    if mt != MessageType::Nak {
        let ghost s0 = raws_of(v@);
        if let Some(m) = subnet {
            v.push(DhcpOption::SubnetMask(m));
        }
        let ghost s1 = raws_of(v@);
        assert(s1 =~= s0 + match subnet {
            Some(m) => seq![ip_raw(CODE_SUBNET_MASK, m)],
            None => Seq::empty(),
        });
        if gateways.len() > 0 {
            v.push(DhcpOption::Router(copy_ips(gateways)));
        }
        let ghost s2 = raws_of(v@);
        assert(s2 =~= s1 + if gateways@.len() > 0 {
            seq![(CODE_ROUTER, ips_bytes(gateways@))]
        } else {
            Seq::empty()
        });
        if dns.len() > 0 {
            v.push(DhcpOption::DomainNameServer(copy_ips(dns)));
        }
        assert(raws_of(v@) =~= s2 + if dns@.len() > 0 {
            seq![(CODE_DNS, ips_bytes(dns@))]
        } else {
            Seq::empty()
        });
        assert(raws_of(v@) =~= reply_raws(mt, server_ip, lease_secs, gateways@, subnet, dns@));
    } else {
        assert(raws_of(v@) =~= reply_raws(mt, server_ip, lease_secs, gateways@, subnet, dns@));
    }
    v
}

/// The first message type among the options.
pub open spec fn first_mt(s: Seq<DhcpOption>) -> Option<MessageType>
    decreases s.len(),
{
    if s.len() == 0 {
        None
    } else {
        match s[0] {
            DhcpOption::MessageType(m) => Some(m),
            _ => first_mt(s.drop_first()),
        }
    }
}

/// The address or number that `o` carries, where `o` is the typed option of `code`.
pub open spec fn u32_in(o: DhcpOption, code: u8) -> Option<u32> {
    match o {
        DhcpOption::ServerIdentifier(x) => if code == CODE_SERVER_ID {
            Some(x)
        } else {
            None
        },
        DhcpOption::RequestedIpAddress(x) => if code == CODE_REQUESTED_IP {
            Some(x)
        } else {
            None
        },
        DhcpOption::SubnetMask(x) => if code == CODE_SUBNET_MASK {
            Some(x)
        } else {
            None
        },
        DhcpOption::IpAddressLeaseTime(x) => if code == CODE_LEASE_TIME {
            Some(x)
        } else {
            None
        },
        _ => None,
    }
}

/// The value of the first typed option of `code` (server identifier, requested
/// address, subnet mask or lease time).
pub open spec fn first_u32(s: Seq<DhcpOption>, code: u8) -> Option<u32>
    decreases s.len(),
{
    if s.len() == 0 {
        None
    } else if u32_in(s[0], code).is_some() {
        u32_in(s[0], code)
    } else {
        first_u32(s.drop_first(), code)
    }
}

pub open spec fn list_in(o: DhcpOption, code: u8) -> Option<Seq<u32>> {
    match o {
        DhcpOption::Router(v) => if code == CODE_ROUTER {
            Some(v@)
        } else {
            None
        },
        DhcpOption::DomainNameServer(v) => if code == CODE_DNS {
            Some(v@)
        } else {
            None
        },
        _ => None,
    }
}

/// The addresses of the first typed router or DNS option (by `code`).
pub open spec fn first_list(s: Seq<DhcpOption>, code: u8) -> Option<Seq<u32>>
    decreases s.len(),
{
    if s.len() == 0 {
        None
    } else if list_in(s[0], code).is_some() {
        list_in(s[0], code)
    } else {
        first_list(s.drop_first(), code)
    }
}

pub fn find_message_type(opts: &Vec<DhcpOption>) -> (r: Option<MessageType>)
    ensures
        r == first_mt(opts@),
{
    let n = opts.len();
    let mut i: usize = 0;
    assert(opts@.subrange(0, n as int) =~= opts@);
    while i < n
        invariant
            n == opts@.len(),
            0 <= i <= n,
            first_mt(opts@) == first_mt(opts@.subrange(i as int, n as int)),
        decreases n - i,
    {
        let ghost sub = opts@.subrange(i as int, n as int);
        assert(sub[0] == opts@[i as int]);
        assert(sub.drop_first() =~= opts@.subrange(i + 1, n as int));
        if let DhcpOption::MessageType(m) = &opts[i] {
            return Some(*m);
        }
        i = i + 1;
    }
    assert(opts@.subrange(i as int, n as int).len() == 0);
    None
}

pub fn find_u32(opts: &Vec<DhcpOption>, code: u8) -> (r: Option<u32>)
    ensures
        r == first_u32(opts@, code),
{
    let n = opts.len();
    let mut i: usize = 0;
    assert(opts@.subrange(0, n as int) =~= opts@);
    while i < n
        invariant
            n == opts@.len(),
            0 <= i <= n,
            first_u32(opts@, code) == first_u32(opts@.subrange(i as int, n as int), code),
        decreases n - i,
    {
        let ghost sub = opts@.subrange(i as int, n as int);
        assert(sub[0] == opts@[i as int]);
        assert(sub.drop_first() =~= opts@.subrange(i + 1, n as int));
        let found: Option<u32> = match &opts[i] {
            DhcpOption::ServerIdentifier(x) => if code == CODE_SERVER_ID {
                Some(*x)
            } else {
                None
            },
            DhcpOption::RequestedIpAddress(x) => if code == CODE_REQUESTED_IP {
                Some(*x)
            } else {
                None
            },
            DhcpOption::SubnetMask(x) => if code == CODE_SUBNET_MASK {
                Some(*x)
            } else {
                None
            },
            DhcpOption::IpAddressLeaseTime(x) => if code == CODE_LEASE_TIME {
                Some(*x)
            } else {
                None
            },
            _ => None,
        };
        if found.is_some() {
            return found;
        }
        i = i + 1;
    }
    assert(opts@.subrange(i as int, n as int).len() == 0);
    None
}

pub fn find_list(opts: &Vec<DhcpOption>, code: u8) -> (r: Option<&Vec<u32>>)
    ensures
        match r {
            Some(v) => first_list(opts@, code) == Some(v@),
            None => first_list(opts@, code) == None::<Seq<u32>>,
        },
{
    let n = opts.len();
    let mut i: usize = 0;
    assert(opts@.subrange(0, n as int) =~= opts@);
    while i < n
        invariant
            n == opts@.len(),
            0 <= i <= n,
            first_list(opts@, code) == first_list(opts@.subrange(i as int, n as int), code),
        decreases n - i,
    {
        let ghost sub = opts@.subrange(i as int, n as int);
        assert(sub[0] == opts@[i as int]);
        assert(sub.drop_first() =~= opts@.subrange(i + 1, n as int));
        match &opts[i] {
            DhcpOption::Router(v) => {
                if code == CODE_ROUTER {
                    return Some(v);
                }
            },
            DhcpOption::DomainNameServer(v) => {
                if code == CODE_DNS {
                    return Some(v);
                }
            },
            _ => {},
        }
        i = i + 1;
    }
    assert(opts@.subrange(i as int, n as int).len() == 0);
    None
}


/// The message type a view's options carry: the first option of that code with
/// a one-octet payload naming a message type.
pub open spec fn raw_mt(s: Seq<(u8, Seq<u8>)>) -> Option<MessageType>
    decreases s.len(),
{
    if s.len() == 0 {
        None
    } else if s[0].0 == CODE_MESSAGE_TYPE && s[0].1.len() == 1 && mt_of_code(s[0].1[0]).is_some() {
        mt_of_code(s[0].1[0])
    } else {
        raw_mt(s.drop_first())
    }
}

/// The address or number of the first option of `code` with a four-octet payload.
pub open spec fn raw_u32(s: Seq<(u8, Seq<u8>)>, code: u8) -> Option<u32>
    decreases s.len(),
{
    if s.len() == 0 {
        None
    } else if s[0].0 == code && s[0].1.len() == 4 {
        Some(sub4(s[0].1, 0))
    } else {
        raw_u32(s.drop_first(), code)
    }
}

/// The payload of the first option of `code` whose length is a multiple of four.
pub open spec fn raw_list(s: Seq<(u8, Seq<u8>)>, code: u8) -> Option<Seq<u8>>
    decreases s.len(),
{
    if s.len() == 0 {
        None
    } else if s[0].0 == code && s[0].1.len() % 4 == 0 {
        Some(s[0].1)
    } else {
        raw_list(s.drop_first(), code)
    }
}

/// The `k`-th address of an address-list payload.
pub open spec fn nth_ip(b: Option<Seq<u8>>, k: int) -> Option<u32> {
    match b {
        Some(bytes) => if 4 * k + 4 <= bytes.len() {
            Some(sub4(bytes, 4 * k))
        } else {
            None
        },
        None => None,
    }
}

pub open spec fn is_u32_code(code: u8) -> bool {
    code == CODE_SERVER_ID || code == CODE_REQUESTED_IP || code == CODE_SUBNET_MASK || code
        == CODE_LEASE_TIME
}

proof fn lemma_ips_index(v: Seq<u32>, k: int)
    requires
        0 <= k < v.len(),
    ensures
        ips_bytes(v).len() == 4 * v.len(),
        sub4(ips_bytes(v), 4 * k) == v[k],
    decreases v.len(),
{
    let b = ips_bytes(v);
    let p = ips_bytes(v.drop_last());
    lemma_ips_len(v);
    lemma_ips_len(v.drop_last());
    lemma_be4(v.last());
    if k < v.len() - 1 {
        lemma_ips_index(v.drop_last(), k);
        assert(b[4 * k] == p[4 * k] && b[4 * k + 1] == p[4 * k + 1] && b[4 * k + 2] == p[4 * k
            + 2] && b[4 * k + 3] == p[4 * k + 3]);
    } else {
        assert(b[4 * k] == be4(v.last())[0] && b[4 * k + 1] == be4(v.last())[1] && b[4 * k + 2]
            == be4(v.last())[2] && b[4 * k + 3] == be4(v.last())[3]);
    }
}

proof fn lemma_ips_len(v: Seq<u32>)
    ensures
        ips_bytes(v).len() == 4 * v.len(),
    decreases v.len(),
{
    if v.len() > 0 {
        lemma_ips_len(v.drop_last());
    }
}

/// For options typed as they are when read from the wire, the typed lookups
/// agree with the lookups on the raw view.
pub proof fn lemma_lookups_agree(s: Seq<DhcpOption>)
    requires
        all_well_typed(s),
    ensures
        first_mt(s) == raw_mt(raws_of(s)),
        forall|code: u8| is_u32_code(code) ==> #[trigger] first_u32(s, code) == raw_u32(raws_of(s), code),
        forall|code: u8|
            (code == CODE_ROUTER || code == CODE_DNS) ==> match #[trigger] first_list(s, code) {
                Some(l) => raw_list(raws_of(s), code) == Some(ips_bytes(l)),
                None => raw_list(raws_of(s), code) == None::<Seq<u8>>,
            },
    decreases s.len(),
{
    if s.len() > 0 {
        let t = s.drop_first();
        assert(raws_of(s).drop_first() =~= raws_of(t));
        assert(raws_of(s)[0] == opt_raw(s[0]));
        assert(well_typed(s[0]));
        assert forall|i: int| 0 <= i < t.len() implies well_typed(#[trigger] t[i]) by {
            assert(t[i] == s[i + 1]);
        }
        lemma_lookups_agree(t);
        match s[0] {
            DhcpOption::ServerIdentifier(x) => lemma_be4(x),
            DhcpOption::RequestedIpAddress(x) => lemma_be4(x),
            DhcpOption::SubnetMask(x) => lemma_be4(x),
            DhcpOption::IpAddressLeaseTime(x) => lemma_be4(x),
            DhcpOption::Router(v) => lemma_ips_len(v@),
            DhcpOption::DomainNameServer(v) => lemma_ips_len(v@),
            _ => {},
        }
        let rs = raws_of(s);
        assert forall|code: u8| is_u32_code(code) implies #[trigger] first_u32(s, code) == raw_u32(
            rs,
            code,
        ) by {
            assert(first_u32(t, code) == raw_u32(raws_of(t), code));
            if rs[0].0 == code && rs[0].1.len() == 4 {
                assert(u32_in(s[0], code).is_some());
            }
        }
        assert forall|code: u8| (code == CODE_ROUTER || code == CODE_DNS) implies match #[trigger] first_list(
            s,
            code,
        ) {
            Some(l) => raw_list(rs, code) == Some(ips_bytes(l)),
            None => raw_list(rs, code) == None::<Seq<u8>>,
        } by {
            let ft = first_list(t, code);
            assert(match ft {
                Some(l) => raw_list(raws_of(t), code) == Some(ips_bytes(l)),
                None => raw_list(raws_of(t), code) == None::<Seq<u8>>,
            });
            if rs[0].0 == code && rs[0].1.len() % 4 == 0 {
                assert(list_in(s[0], code).is_some());
            }
        }
    }
}

proof fn lemma_nth_agree(l: Option<Seq<u32>>, b: Option<Seq<u8>>, k: int)
    requires
        0 <= k,
        match l {
            Some(v) => b == Some(ips_bytes(v)),
            None => b == None::<Seq<u8>>,
        },
    ensures
        nth_of(l, k) == nth_ip(b, k),
{
    if let Some(v) = l {
        lemma_ips_len(v);
        if k < v.len() {
            lemma_ips_index(v, k);
        }
    }
}

/// What a client learns from a reply.
#[derive(Clone, Copy, Debug, PartialEq, Eq, Structural)]
pub struct Settings {
    pub ip: u32,
    pub server_ip: Option<u32>,
    pub subnet: Option<u32>,
    pub router: Option<u32>,
    pub dns1: Option<u32>,
    pub dns2: Option<u32>,
    pub lease_time: Option<u32>,
}

pub open spec fn nth_of(l: Option<Seq<u32>>, k: int) -> Option<u32> {
    match l {
        Some(s) => if k < s.len() {
            Some(s[k])
        } else {
            None
        },
        None => None,
    }
}

/// The settings a reply carries: the assigned address, then the first of each
/// option, forwarded unchanged.
pub open spec fn settings_of(p: Packet) -> Settings {
    Settings {
        ip: p.yiaddr,
        server_ip: first_u32(p.options@, CODE_SERVER_ID),
        subnet: first_u32(p.options@, CODE_SUBNET_MASK),
        router: nth_of(first_list(p.options@, CODE_ROUTER), 0),
        dns1: nth_of(first_list(p.options@, CODE_DNS), 0),
        dns2: nth_of(first_list(p.options@, CODE_DNS), 1),
        lease_time: first_u32(p.options@, CODE_LEASE_TIME),
    }
}

/// A reply is meant for this client: it is a reply, for this transaction, to
/// this hardware address, and says what kind of message it is.
pub open spec fn reply_for(p: Packet, mac: Seq<u8>, xid: u32) -> bool {
    &&& p.reply
    &&& p.xid == xid
    &&& p.chaddr@.subrange(0, 6) == mac
    &&& first_mt(p.options@).is_some()
}

fn nth(l: Option<&Vec<u32>>, k: usize) -> (r: Option<u32>)
    ensures
        r == nth_of(
            match l {
                Some(v) => Some(v@),
                None => None,
            },
            k as int,
        ),
{
    match l {
        Some(v) => if k < v.len() {
            Some(v[k])
        } else {
            None
        },
        None => None,
    }
}


/// The settings a reply's view carries.
pub open spec fn settings_view(v: PacketView) -> Settings {
    Settings {
        ip: v.yiaddr,
        server_ip: raw_u32(v.options, CODE_SERVER_ID),
        subnet: raw_u32(v.options, CODE_SUBNET_MASK),
        router: nth_ip(raw_list(v.options, CODE_ROUTER), 0),
        dns1: nth_ip(raw_list(v.options, CODE_DNS), 0),
        dns2: nth_ip(raw_list(v.options, CODE_DNS), 1),
        lease_time: raw_u32(v.options, CODE_LEASE_TIME),
    }
}

/// A reply's view is meant for this client (see `reply_for`).
pub open spec fn reply_view_for(v: PacketView, mac: Seq<u8>, xid: u32) -> bool {
    &&& v.reply
    &&& v.xid == xid
    &&& v.chaddr.subrange(0, 6) == mac
    &&& raw_mt(v.options).is_some()
}

/// For a packet typed as read from the wire, what the client reads from it is
/// determined by its view.
pub proof fn lemma_reply_agrees(p: Packet, mac: Seq<u8>, xid: u32)
    requires
        all_well_typed(p.options@),
    ensures
        first_mt(p.options@) == raw_mt(p@.options),
        reply_for(p, mac, xid) == reply_view_for(p@, mac, xid),
        settings_of(p) == settings_view(p@),
{
    let s = p.options@;
    lemma_lookups_agree(s);
    assert(is_u32_code(CODE_SERVER_ID) && is_u32_code(CODE_SUBNET_MASK) && is_u32_code(CODE_LEASE_TIME));
    assert(first_u32(s, CODE_SERVER_ID) == raw_u32(raws_of(s), CODE_SERVER_ID));
    assert(first_u32(s, CODE_SUBNET_MASK) == raw_u32(raws_of(s), CODE_SUBNET_MASK));
    assert(first_u32(s, CODE_LEASE_TIME) == raw_u32(raws_of(s), CODE_LEASE_TIME));
    let r = first_list(s, CODE_ROUTER);
    let d = first_list(s, CODE_DNS);
    lemma_nth_agree(r, raw_list(raws_of(s), CODE_ROUTER), 0);
    lemma_nth_agree(d, raw_list(raws_of(s), CODE_DNS), 0);
    lemma_nth_agree(d, raw_list(raws_of(s), CODE_DNS), 1);
}

/// Whether the first six octets of `chaddr` are `mac`.
fn chaddr_is(chaddr: &[u8; 16], mac: &[u8; 6]) -> (r: bool)
    ensures
        r == (chaddr@.subrange(0, 6) == mac@),
{
    let mut i: usize = 0;
    while i < 6
        invariant
            0 <= i <= 6,
            chaddr@.len() == 16,
            mac@.len() == 6,
            forall|k: int| 0 <= k < i ==> chaddr@[k] == mac@[k],
        decreases 6 - i,
    {
        if chaddr[i] != mac[i] {
            assert(chaddr@.subrange(0, 6)[i as int] != mac@[i as int]);
            return false;
        }
        i = i + 1;
    }
    assert(chaddr@.subrange(0, 6) =~= mac@);
    true
}

impl Packet {
    /// A client request: broadcast flag set while the client has no address.
    pub fn new_request(
        mac: &[u8; 6],
        xid: u32,
        secs: u16,
        ciaddr: Option<u32>,
        options: Vec<DhcpOption>,
    ) -> (r: Packet)
        ensures
            !r.reply,
            r.hops == 0,
            r.xid == xid,
            r.secs == secs,
            r.flags == if ciaddr.is_some() {
                0u16
            } else {
                0x8000u16
            },
            r.ciaddr == match ciaddr {
                Some(a) => a,
                None => 0,
            },
            r.yiaddr == 0 && r.siaddr == 0 && r.giaddr == 0,
            r.chaddr@ == mac@ + zeros(10),
            r.options@ == options@,
    {
        let chaddr: [u8; 16] = [
            mac[0],
            mac[1],
            mac[2],
            mac[3],
            mac[4],
            mac[5],
            0,
            0,
            0,
            0,
            0,
            0,
            0,
            0,
            0,
            0,
        ];
        assert(chaddr@ =~= mac@ + zeros(10));
        Packet {
            reply: false,
            hops: 0,
            xid,
            secs,
            flags: if ciaddr.is_some() {
                0
            } else {
                0x8000
            },
            ciaddr: match ciaddr {
                Some(a) => a,
                None => 0,
            },
            yiaddr: 0,
            siaddr: 0,
            giaddr: 0,
            chaddr,
            options,
        }
    }

    /// A reply to this request: same transaction, flags, client and relay
    /// addresses and hardware address; `yiaddr` is the assigned address, if any.
    pub fn new_reply(&self, ip: Option<u32>, options: Vec<DhcpOption>) -> (r: Packet)
        ensures
            r.reply,
            r.hops == 0,
            r.xid == self.xid,
            r.secs == 0,
            r.flags == self.flags,
            r.ciaddr == self.ciaddr,
            r.yiaddr == match ip {
                Some(a) => a,
                None => 0,
            },
            r.siaddr == 0,
            r.giaddr == self.giaddr,
            r.chaddr@ == self.chaddr@,
            r.options@ == options@,
    {
        Packet {
            reply: true,
            hops: 0,
            xid: self.xid,
            secs: 0,
            flags: self.flags,
            ciaddr: self.ciaddr,
            yiaddr: match ip {
                Some(a) => a,
                None => 0,
            },
            siaddr: 0,
            giaddr: self.giaddr,
            chaddr: self.chaddr,
            options,
        }
    }

    /// Reads a reply meant for this client (`mac`, `xid`): its message type and
    /// settings; `None` for any other packet.
    pub fn parse_reply(&self, mac: &[u8; 6], xid: u32) -> (r: Option<(MessageType, Settings)>)
        ensures
            r.is_some() == reply_for(*self, mac@, xid),
            r matches Some((m, st)) ==> first_mt(self.options@) == Some(m) && st == settings_of(
                *self,
            ),
    {
        if !self.reply || self.xid != xid || !chaddr_is(&self.chaddr, mac) {
            return None;
        }
        let mt = match find_message_type(&self.options) {
            Some(m) => m,
            None => {
                return None;
            },
        };
        let dns = find_list(&self.options, CODE_DNS);
        let settings = Settings {
            ip: self.yiaddr,
            server_ip: find_u32(&self.options, CODE_SERVER_ID),
            subnet: find_u32(&self.options, CODE_SUBNET_MASK),
            router: nth(find_list(&self.options, CODE_ROUTER), 0),
            dns1: nth(dns, 0),
            dns2: nth(dns, 1),
            lease_time: find_u32(&self.options, CODE_LEASE_TIME),
        };
        Some((mt, settings))
    }
}

} // verus!
