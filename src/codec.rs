//! The wire codec: the fixed BOOTP header, the magic cookie and the option TLVs.
//!
//! A packet's view keeps each option as its raw `(code, payload)` pair, so that
//! an option the library does not type is carried through unchanged.

use vstd::prelude::*;

verus! {

/// What can be wrong with a frame, or with a packet to be written.
#[derive(Debug, Clone, Copy, PartialEq, Eq, Structural)]
pub enum FormatError {
    /// The buffer is too small: for a frame, shorter than the header and cookie;
    /// for encoding, shorter than the encoded packet.
    BufferTooShort,
    /// The options region does not start with the magic cookie.
    MissingCookie,
    /// An option's length field runs past the end of the frame.
    TruncatedOption,
    /// The frame ends before the `End` option.
    MissingTerminator,
    /// An option's payload is longer than a length byte can say.
    UnexpectedOptionLength,
}

#[derive(Debug, Clone, Copy, PartialEq, Eq, Structural)]
pub enum MessageType {
    Discover,
    Offer,
    Request,
    Decline,
    Ack,
    Nak,
    Release,
    Inform,
}

pub const CODE_SUBNET_MASK: u8 = 1;
pub const CODE_ROUTER: u8 = 3;
pub const CODE_DNS: u8 = 6;
pub const CODE_REQUESTED_IP: u8 = 50;
pub const CODE_LEASE_TIME: u8 = 51;
pub const CODE_MESSAGE_TYPE: u8 = 53;
pub const CODE_SERVER_ID: u8 = 54;
pub const CODE_PARAMETER_LIST: u8 = 55;
pub const CODE_CLIENT_ID: u8 = 61;
pub const CODE_PAD: u8 = 0;
pub const CODE_END: u8 = 255;

/// Length of the fixed header, up to the cookie.
pub const HEADER_LEN: usize = 236;
/// Length of the fixed header with the cookie: where the options begin.
pub const OPTIONS_START: usize = 240;

pub open spec fn cookie() -> Seq<u8> {
    seq![0x63u8, 0x82u8, 0x53u8, 0x63u8]
}

pub open spec fn mt_code(m: MessageType) -> u8 {
    match m {
        MessageType::Discover => 1,
        MessageType::Offer => 2,
        MessageType::Request => 3,
        MessageType::Decline => 4,
        MessageType::Ack => 5,
        MessageType::Nak => 6,
        MessageType::Release => 7,
        MessageType::Inform => 8,
    }
}

pub open spec fn mt_of_code(b: u8) -> Option<MessageType> {
    if b == 1 {
        Some(MessageType::Discover)
    } else if b == 2 {
        Some(MessageType::Offer)
    } else if b == 3 {
        Some(MessageType::Request)
    } else if b == 4 {
        Some(MessageType::Decline)
    } else if b == 5 {
        Some(MessageType::Ack)
    } else if b == 6 {
        Some(MessageType::Nak)
    } else if b == 7 {
        Some(MessageType::Release)
    } else if b == 8 {
        Some(MessageType::Inform)
    } else {
        None
    }
}

impl MessageType {
    pub fn code(&self) -> (r: u8)
        ensures
            r == mt_code(*self),
    {
        match self {
            MessageType::Discover => 1,
            MessageType::Offer => 2,
            MessageType::Request => 3,
            MessageType::Decline => 4,
            MessageType::Ack => 5,
            MessageType::Nak => 6,
            MessageType::Release => 7,
            MessageType::Inform => 8,
        }
    }

    pub fn from_code(b: u8) -> (r: Option<MessageType>)
        ensures
            r == mt_of_code(b),
    {
        if b == 1 {
            Some(MessageType::Discover)
        } else if b == 2 {
            Some(MessageType::Offer)
        } else if b == 3 {
            Some(MessageType::Request)
        } else if b == 4 {
            Some(MessageType::Decline)
        } else if b == 5 {
            Some(MessageType::Ack)
        } else if b == 6 {
            Some(MessageType::Nak)
        } else if b == 7 {
            Some(MessageType::Release)
        } else if b == 8 {
            Some(MessageType::Inform)
        } else {
            None
        }
    }
}

/// The four octets of `x`, most significant first.
pub open spec fn be4(x: u32) -> Seq<u8> {
    seq![(x >> 24) as u8, (x >> 16) as u8, (x >> 8) as u8, x as u8]
}

pub open spec fn u32_of(a: u8, b: u8, c: u8, d: u8) -> u32 {
    ((a as u32) << 24) | ((b as u32) << 16) | ((c as u32) << 8) | (d as u32)
}

pub open spec fn be2(x: u16) -> Seq<u8> {
    seq![(x >> 8) as u8, x as u8]
}

pub open spec fn u16_of(a: u8, b: u8) -> u16 {
    ((a as u16) << 8) | (b as u16)
}

pub proof fn lemma_be4(x: u32)
    ensures
        u32_of((x >> 24) as u8, (x >> 16) as u8, (x >> 8) as u8, x as u8) == x,
{
    assert(((((x >> 24) as u8) as u32) << 24) | ((((x >> 16) as u8) as u32) << 16) | ((((x
        >> 8) as u8) as u32) << 8) | ((x as u8) as u32) == x) by (bit_vector);
}

pub proof fn lemma_be2(x: u16)
    ensures
        u16_of((x >> 8) as u8, x as u8) == x,
{
    assert(((((x >> 8) as u8) as u16) << 8) | ((x as u8) as u16) == x) by (bit_vector);
}

proof fn lemma_u32_of(a: u8, b: u8, c: u8, d: u8)
    ensures
        be4(u32_of(a, b, c, d)) == seq![a, b, c, d],
{
    let x = u32_of(a, b, c, d);
    assert((((((a as u32) << 24) | ((b as u32) << 16) | ((c as u32) << 8) | (d as u32)) >> 24)
        as u8) == a) by (bit_vector);
    assert((((((a as u32) << 24) | ((b as u32) << 16) | ((c as u32) << 8) | (d as u32)) >> 16)
        as u8) == b) by (bit_vector);
    assert((((((a as u32) << 24) | ((b as u32) << 16) | ((c as u32) << 8) | (d as u32)) >> 8)
        as u8) == c) by (bit_vector);
    assert(((((a as u32) << 24) | ((b as u32) << 16) | ((c as u32) << 8) | (d as u32)) as u8)
        == d) by (bit_vector);
    assert(be4(x) =~= seq![a, b, c, d]);
}

/// The octets of a list of addresses.
pub open spec fn ips_bytes(s: Seq<u32>) -> Seq<u8>
    decreases s.len(),
{
    if s.len() == 0 {
        Seq::empty()
    } else {
        ips_bytes(s.drop_last()) + be4(s.last())
    }
}

proof fn lemma_ips_bytes_len(s: Seq<u32>)
    ensures
        ips_bytes(s).len() == 4 * s.len(),
    decreases s.len(),
{
    if s.len() > 0 {
        lemma_ips_bytes_len(s.drop_last());
    }
}

/// One option, typed where the library knows its code. A payload that does not
/// fit its code's type is kept as `Unrecognized`.
#[derive(Debug, Clone)]
pub enum DhcpOption {
    MessageType(MessageType),
    ServerIdentifier(u32),
    RequestedIpAddress(u32),
    ClientIdentifier(Vec<u8>),
    Router(Vec<u32>),
    SubnetMask(u32),
    DomainNameServer(Vec<u32>),
    IpAddressLeaseTime(u32),
    ParameterRequestList(Vec<u8>),
    Unrecognized(u8, Vec<u8>),
}

/// Whether the library has a typed form for a payload of `code`.
pub open spec fn typable(code: u8, p: Seq<u8>) -> bool {
    ||| (code == CODE_MESSAGE_TYPE && p.len() == 1 && mt_of_code(p[0]).is_some())
    ||| (p.len() == 4 && (code == CODE_SERVER_ID || code == CODE_REQUESTED_IP || code
        == CODE_SUBNET_MASK || code == CODE_LEASE_TIME))
    ||| code == CODE_CLIENT_ID
    ||| code == CODE_PARAMETER_LIST
    ||| (p.len() % 4 == 0 && (code == CODE_ROUTER || code == CODE_DNS))
}

/// The option is typed as it is when read from the wire: only a payload
/// without a typed form stays `Unrecognized`.
pub open spec fn well_typed(o: DhcpOption) -> bool {
    match o {
        DhcpOption::Unrecognized(c, b) => !typable(c, b@),
        _ => true,
    }
}

pub open spec fn all_well_typed(s: Seq<DhcpOption>) -> bool {
    forall|i: int| 0 <= i < s.len() ==> well_typed(#[trigger] s[i])
}

/// An option as it stands on the wire: its code and its payload.
pub open spec fn opt_raw(o: DhcpOption) -> (u8, Seq<u8>) {
    match o {
        DhcpOption::MessageType(m) => (CODE_MESSAGE_TYPE, seq![mt_code(m)]),
        DhcpOption::ServerIdentifier(ip) => (CODE_SERVER_ID, be4(ip)),
        DhcpOption::RequestedIpAddress(ip) => (CODE_REQUESTED_IP, be4(ip)),
        DhcpOption::ClientIdentifier(b) => (CODE_CLIENT_ID, b@),
        DhcpOption::Router(v) => (CODE_ROUTER, ips_bytes(v@)),
        DhcpOption::SubnetMask(ip) => (CODE_SUBNET_MASK, be4(ip)),
        DhcpOption::DomainNameServer(v) => (CODE_DNS, ips_bytes(v@)),
        DhcpOption::IpAddressLeaseTime(t) => (CODE_LEASE_TIME, be4(t)),
        DhcpOption::ParameterRequestList(b) => (CODE_PARAMETER_LIST, b@),
        DhcpOption::Unrecognized(c, b) => (c, b@),
    }
}

pub open spec fn raw_bytes(r: (u8, Seq<u8>)) -> Seq<u8> {
    seq![r.0, r.1.len() as u8] + r.1
}

/// The octets of a list of raw options, in order, without the terminator.
pub open spec fn raws_bytes(s: Seq<(u8, Seq<u8>)>) -> Seq<u8>
    decreases s.len(),
{
    if s.len() == 0 {
        Seq::empty()
    } else {
        raw_bytes(s[0]) + raws_bytes(s.drop_first())
    }
}

/// An option can be written: its code is neither pad nor end, and its payload
/// fits a length byte.
pub open spec fn raw_ok(r: (u8, Seq<u8>)) -> bool {
    r.0 != CODE_PAD && r.0 != CODE_END && r.1.len() <= 255
}

proof fn lemma_raws_bytes_push(s: Seq<(u8, Seq<u8>)>, x: (u8, Seq<u8>))
    ensures
        raws_bytes(s.push(x)) == raws_bytes(s) + raw_bytes(x),
    decreases s.len(),
{
    if s.len() == 0 {
        assert(s.push(x).drop_first() =~= Seq::<(u8, Seq<u8>)>::empty());
        assert(s.push(x)[0] == x);
        assert(raws_bytes(s.push(x).drop_first()) == Seq::<u8>::empty());
        assert(raws_bytes(s.push(x)) =~= raws_bytes(s) + raw_bytes(x));
    } else {
        assert(s.push(x).drop_first() =~= s.drop_first().push(x));
        assert(s.push(x)[0] == s[0]);
        lemma_raws_bytes_push(s.drop_first(), x);
        assert(raws_bytes(s.push(x)) == raw_bytes(s[0]) + (raws_bytes(s.drop_first()) + raw_bytes(
            x,
        )));
        assert(raws_bytes(s.push(x)) =~= raws_bytes(s) + raw_bytes(x));
    }
}

/// Copies the bytes of a slice into a new vector.
fn bytes_of(b: &[u8]) -> (r: Vec<u8>)
    ensures
        r@ == b@,
{
    vstd::slice::slice_to_vec(b)
}

/// Reads the payload of an address-list option.
fn ips_of(p: &[u8]) -> (r: Vec<u32>)
    requires
        p@.len() % 4 == 0,
    ensures
        ips_bytes(r@) == p@,
{
    let mut v: Vec<u32> = Vec::new();
    let mut j: usize = 0;
    while j < p.len()
        invariant
            p@.len() % 4 == 0,
            j % 4 == 0,
            0 <= j <= p@.len(),
            ips_bytes(v@) == p@.subrange(0, j as int),
        decreases p@.len() - j,
    {
        let x = u32_from(p[j], p[j + 1], p[j + 2], p[j + 3]);
        proof {
            lemma_u32_of(p@[j as int], p@[j + 1], p@[j + 2], p@[j + 3]);
            assert(v@.push(x).drop_last() =~= v@);
            assert(p@.subrange(0, j + 4) =~= p@.subrange(0, j as int) + seq![
                p@[j as int],
                p@[j + 1],
                p@[j + 2],
                p@[j + 3],
            ]);
        }
        v.push(x);
        j = j + 4;
    }
    assert(p@.subrange(0, j as int) =~= p@);
    v
}

pub fn u32_from(a: u8, b: u8, c: u8, d: u8) -> (r: u32)
    ensures
        r == u32_of(a, b, c, d),
{
    ((a as u32) << 24) | ((b as u32) << 16) | ((c as u32) << 8) | (d as u32)
}

pub fn u16_from(a: u8, b: u8) -> (r: u16)
    ensures
        r == u16_of(a, b),
{
    ((a as u16) << 8) | (b as u16)
}

impl DhcpOption {
    /// Types an option read from the wire.
    pub fn from_raw(code: u8, p: &[u8]) -> (r: DhcpOption)
        ensures
            opt_raw(r) == (code, p@),
            well_typed(r),
    {
        let n = p.len();
        if code == CODE_MESSAGE_TYPE && n == 1 {
            match MessageType::from_code(p[0]) {
                Some(m) => {
                    assert(p@ =~= seq![p@[0]]);
                    return DhcpOption::MessageType(m);
                },
                None => {},
            }
        }
        if n == 4 && (code == CODE_SERVER_ID || code == CODE_REQUESTED_IP || code
            == CODE_SUBNET_MASK || code == CODE_LEASE_TIME) {
            let x = u32_from(p[0], p[1], p[2], p[3]);
            proof {
                lemma_u32_of(p@[0], p@[1], p@[2], p@[3]);
                assert(p@ =~= seq![p@[0], p@[1], p@[2], p@[3]]);
            }
            return if code == CODE_SERVER_ID {
                DhcpOption::ServerIdentifier(x)
            } else if code == CODE_REQUESTED_IP {
                DhcpOption::RequestedIpAddress(x)
            } else if code == CODE_SUBNET_MASK {
                DhcpOption::SubnetMask(x)
            } else {
                DhcpOption::IpAddressLeaseTime(x)
            };
        }
        if code == CODE_CLIENT_ID {
            return DhcpOption::ClientIdentifier(bytes_of(p));
        }
        if code == CODE_PARAMETER_LIST {
            return DhcpOption::ParameterRequestList(bytes_of(p));
        }
        if n % 4 == 0 && code == CODE_ROUTER {
            return DhcpOption::Router(ips_of(p));
        }
        if n % 4 == 0 && code == CODE_DNS {
            return DhcpOption::DomainNameServer(ips_of(p));
        }
        DhcpOption::Unrecognized(code, bytes_of(p))
    }
}

/// Parses the options region (after the cookie) into raw options, up to `End`.
/// Pad octets are skipped.
pub open spec fn parse_opts(s: Seq<u8>) -> Result<Seq<(u8, Seq<u8>)>, FormatError>
    decreases s.len(),
{
    if s.len() == 0 {
        Err(FormatError::MissingTerminator)
    } else if s[0] == CODE_END {
        Ok(Seq::empty())
    } else if s[0] == CODE_PAD {
        parse_opts(s.drop_first())
    } else if s.len() < 2 || s.len() < 2 + s[1] {
        Err(FormatError::TruncatedOption)
    } else {
        match parse_opts(s.subrange(2 + s[1], s.len() as int)) {
            Ok(rest) => Ok(seq![(s[0], s.subrange(2, 2 + s[1]))] + rest),
            Err(e) => Err(e),
        }
    }
}

pub open spec fn prepend(
    a: Seq<(u8, Seq<u8>)>,
    r: Result<Seq<(u8, Seq<u8>)>, FormatError>,
) -> Result<Seq<(u8, Seq<u8>)>, FormatError> {
    match r {
        Ok(x) => Ok(a + x),
        Err(e) => Err(e),
    }
}

/// The mathematical content of a packet.
pub struct PacketView {
    pub reply: bool,
    pub hops: u8,
    pub xid: u32,
    pub secs: u16,
    pub flags: u16,
    pub ciaddr: u32,
    pub yiaddr: u32,
    pub siaddr: u32,
    pub giaddr: u32,
    pub chaddr: Seq<u8>,
    pub options: Seq<(u8, Seq<u8>)>,
}

/// A DHCP packet: the fixed header fields and the options in wire order.
#[derive(Debug)]
pub struct Packet {
    pub reply: bool,
    pub hops: u8,
    pub xid: u32,
    pub secs: u16,
    pub flags: u16,
    pub ciaddr: u32,
    pub yiaddr: u32,
    pub siaddr: u32,
    pub giaddr: u32,
    pub chaddr: [u8; 16],
    pub options: Vec<DhcpOption>,
}

pub open spec fn raws_of(s: Seq<DhcpOption>) -> Seq<(u8, Seq<u8>)> {
    s.map_values(|o: DhcpOption| opt_raw(o))
}

impl View for Packet {
    type V = PacketView;

    open spec fn view(&self) -> PacketView {
        PacketView {
            reply: self.reply,
            hops: self.hops,
            xid: self.xid,
            secs: self.secs,
            flags: self.flags,
            ciaddr: self.ciaddr,
            yiaddr: self.yiaddr,
            siaddr: self.siaddr,
            giaddr: self.giaddr,
            chaddr: self.chaddr@,
            options: raws_of(self.options@),
        }
    }
}

pub open spec fn zeros(n: nat) -> Seq<u8> {
    Seq::new(n, |i: int| 0u8)
}

/// The fixed header, up to the cookie.
pub open spec fn header_bytes(v: PacketView) -> Seq<u8> {
    seq![if v.reply { 2u8 } else { 1u8 }, 1u8, 6u8, v.hops] + be4(v.xid) + be2(v.secs) + be2(
        v.flags,
    ) + be4(v.ciaddr) + be4(v.yiaddr) + be4(v.siaddr) + be4(v.giaddr) + v.chaddr + zeros(192)
}

/// The octets of a packet on the wire.
pub open spec fn encoding(v: PacketView) -> Seq<u8> {
    header_bytes(v) + cookie() + raws_bytes(v.options) + seq![CODE_END]
}

/// Every option of the packet can be written.
pub open spec fn options_fit(v: PacketView) -> bool {
    forall|i: int| 0 <= i < v.options.len() ==> raw_ok(#[trigger] v.options[i])
}

pub open spec fn sub4(d: Seq<u8>, i: int) -> u32 {
    u32_of(d[i], d[i + 1], d[i + 2], d[i + 3])
}

/// What a frame decodes to.
pub open spec fn decoding(d: Seq<u8>) -> Result<PacketView, FormatError> {
    if d.len() < OPTIONS_START {
        Err(FormatError::BufferTooShort)
    } else if d.subrange(HEADER_LEN as int, OPTIONS_START as int) != cookie() {
        Err(FormatError::MissingCookie)
    } else {
        match parse_opts(d.subrange(OPTIONS_START as int, d.len() as int)) {
            Ok(os) => Ok(
                PacketView {
                    reply: d[0] == 2,
                    hops: d[3],
                    xid: sub4(d, 4),
                    secs: u16_of(d[8], d[9]),
                    flags: u16_of(d[10], d[11]),
                    ciaddr: sub4(d, 12),
                    yiaddr: sub4(d, 16),
                    siaddr: sub4(d, 20),
                    giaddr: sub4(d, 24),
                    chaddr: d.subrange(28, 44),
                    options: os,
                },
            ),
            Err(e) => Err(e),
        }
    }
}

/// Appends `x`'s octets, most significant first.
fn push4(out: &mut Vec<u8>, x: u32)
    ensures
        final(out)@ == old(out)@ + be4(x),
{
    out.push((x >> 24) as u8);
    out.push((x >> 16) as u8);
    out.push((x >> 8) as u8);
    out.push(x as u8);
    assert(final(out)@ =~= old(out)@ + be4(x));
}

fn push_ips(out: &mut Vec<u8>, v: &Vec<u32>)
    ensures
        final(out)@ == old(out)@ + ips_bytes(v@),
{
    let ghost o = out@;
    let mut i: usize = 0;
    while i < v.len()
        invariant
            0 <= i <= v@.len(),
            out@ == o + ips_bytes(v@.subrange(0, i as int)),
        decreases v@.len() - i,
    {
        proof {
            assert(v@.subrange(0, i + 1).drop_last() =~= v@.subrange(0, i as int));
        }
        push4(out, v[i]);
        i = i + 1;
    }
    assert(v@.subrange(0, i as int) =~= v@);
}

fn push_bytes(out: &mut Vec<u8>, b: &Vec<u8>)
    ensures
        final(out)@ == old(out)@ + b@,
{
    let ghost o = out@;
    let mut i: usize = 0;
    while i < b.len()
        invariant
            0 <= i <= b@.len(),
            out@ == o + b@.subrange(0, i as int),
        decreases b@.len() - i,
    {
        out.push(b[i]);
        i = i + 1;
        assert(out@ =~= o + b@.subrange(0, i as int));
    }
    assert(b@.subrange(0, i as int) =~= b@);
}

impl DhcpOption {
    /// The option's code.
    pub fn code(&self) -> (r: u8)
        ensures
            r == opt_raw(*self).0,
    {
        match self {
            DhcpOption::MessageType(_) => CODE_MESSAGE_TYPE,
            DhcpOption::ServerIdentifier(_) => CODE_SERVER_ID,
            DhcpOption::RequestedIpAddress(_) => CODE_REQUESTED_IP,
            DhcpOption::ClientIdentifier(_) => CODE_CLIENT_ID,
            DhcpOption::Router(_) => CODE_ROUTER,
            DhcpOption::SubnetMask(_) => CODE_SUBNET_MASK,
            DhcpOption::DomainNameServer(_) => CODE_DNS,
            DhcpOption::IpAddressLeaseTime(_) => CODE_LEASE_TIME,
            DhcpOption::ParameterRequestList(_) => CODE_PARAMETER_LIST,
            DhcpOption::Unrecognized(c, _) => *c,
        }
    }

    /// The payload's length in octets, or 256 where it is longer than 255.
    pub fn payload_len(&self) -> (r: usize)
        ensures
            r == if opt_raw(*self).1.len() > 255 {
                256
            } else {
                opt_raw(*self).1.len()
            },
    {
        match self {
            DhcpOption::MessageType(_) => 1,
            DhcpOption::ServerIdentifier(_) | DhcpOption::RequestedIpAddress(_)
            | DhcpOption::SubnetMask(_) | DhcpOption::IpAddressLeaseTime(_) => 4,
            DhcpOption::ClientIdentifier(b) | DhcpOption::ParameterRequestList(b)
            | DhcpOption::Unrecognized(_, b) => if b.len() > 255 {
                256
            } else {
                b.len()
            },
            DhcpOption::Router(v) | DhcpOption::DomainNameServer(v) => {
                proof {
                    lemma_ips_bytes_len(v@);
                }
                if v.len() > 64 {
                    // more addresses than any length byte can hold
                    256
                } else {
                    4 * v.len()
                }
            },
        }
    }

    /// Appends the option: code, length, payload.
    fn write(&self, out: &mut Vec<u8>)
        requires
            raw_ok(opt_raw(*self)),
        ensures
            final(out)@ == old(out)@ + raw_bytes(opt_raw(*self)),
    {
        let ghost o = out@;
        let code = self.code();
        let len = self.payload_len();
        out.push(code);
        out.push(len as u8);
        match self {
            DhcpOption::MessageType(m) => {
                out.push(m.code());
            },
            DhcpOption::ServerIdentifier(x) | DhcpOption::RequestedIpAddress(x)
            | DhcpOption::SubnetMask(x) | DhcpOption::IpAddressLeaseTime(x) => {
                push4(out, *x);
            },
            DhcpOption::ClientIdentifier(b) | DhcpOption::ParameterRequestList(b)
            | DhcpOption::Unrecognized(_, b) => {
                push_bytes(out, b);
            },
            DhcpOption::Router(v) | DhcpOption::DomainNameServer(v) => {
                push_ips(out, v);
            },
        }
        assert(out@ =~= o + raw_bytes(opt_raw(*self)));
    }
}

fn push2(out: &mut Vec<u8>, x: u16)
    ensures
        final(out)@ == old(out)@ + be2(x),
{
    out.push((x >> 8) as u8);
    out.push(x as u8);
    assert(final(out)@ =~= old(out)@ + be2(x));
}

/// Parses the options region that starts at `start`.
fn parse_options(data: &[u8], start: usize) -> (r: Result<Vec<DhcpOption>, FormatError>)
    requires
        start <= data@.len(),
    ensures
        match r {
            Ok(os) => parse_opts(data@.subrange(start as int, data@.len() as int)) == Ok::<
                Seq<(u8, Seq<u8>)>,
                FormatError,
            >(raws_of(os@)) && all_well_typed(os@),
            Err(e) => parse_opts(data@.subrange(start as int, data@.len() as int)) == Err::<
                Seq<(u8, Seq<u8>)>,
                FormatError,
            >(e),
        },
{
    let n = data.len();
    let ghost all = data@.subrange(start as int, n as int);
    let mut options: Vec<DhcpOption> = Vec::new();
    let mut pos: usize = start;
    while pos < n
        invariant
            n == data@.len(),
            start <= pos <= n,
            all == data@.subrange(start as int, n as int),
            all_well_typed(options@),
            parse_opts(all) == prepend(raws_of(options@), parse_opts(data@.subrange(pos as int, n as int))),
        decreases n - pos,
    {
        let ghost sub = data@.subrange(pos as int, n as int);
        let code = data[pos];
        if code == CODE_END {
            assert(raws_of(options@) + Seq::empty() =~= raws_of(options@));
            return Ok(options);
        }
        if code == CODE_PAD {
            assert(sub.drop_first() =~= data@.subrange(pos + 1, n as int));
            pos = pos + 1;
        } else {
            if pos + 1 >= n {
                return Err(FormatError::TruncatedOption);
            }
            let len = data[pos + 1] as usize;
            if n - (pos + 2) < len {
                return Err(FormatError::TruncatedOption);
            }
            let payload = vstd::slice::slice_subrange(data, pos + 2, pos + 2 + len);
            let o = DhcpOption::from_raw(code, payload);
            proof {
                let rest = sub.subrange(2 + len, sub.len() as int);
                assert(rest =~= data@.subrange(pos + 2 + len, n as int));
                assert(sub.subrange(2, 2 + len) =~= payload@);
                assert(raws_of(options@.push(o)) =~= raws_of(options@).push(opt_raw(o)));
                match parse_opts(rest) {
                    Ok(x) => {
                        assert(raws_of(options@) + (seq![opt_raw(o)] + x) =~= raws_of(
                            options@.push(o),
                        ) + x);
                    },
                    Err(e) => {},
                }
            }
            options.push(o);
            pos = pos + 2 + len;
        }
    }
    Err(FormatError::MissingTerminator)
}

impl Packet {
    /// Decodes a frame. Each option is typed as `DhcpOption::from_raw` types it.
    pub fn decode(data: &[u8]) -> (r: Result<Packet, FormatError>)
        ensures
            match r {
                Ok(p) => decoding(data@) == Ok::<PacketView, FormatError>(p@) && all_well_typed(
                    p.options@,
                ),
                Err(e) => decoding(data@) == Err::<PacketView, FormatError>(e),
            },
    {
        let n = data.len();
        if n < OPTIONS_START {
            return Err(FormatError::BufferTooShort);
        }
        if !(data[236] == 0x63 && data[237] == 0x82 && data[238] == 0x53 && data[239] == 0x63) {
            proof {
                let c = data@.subrange(236, 240);
                if c == cookie() {
                    assert(c[0] == cookie()[0] && c[1] == cookie()[1] && c[2] == cookie()[2]
                        && c[3] == cookie()[3]);
                }
            }
            return Err(FormatError::MissingCookie);
        }
        assert(data@.subrange(236, 240) =~= cookie());
        let options = match parse_options(data, OPTIONS_START) {
            Ok(os) => os,
            Err(e) => {
                return Err(e);
            },
        };
        let chaddr: [u8; 16] = [
            data[28],
            data[29],
            data[30],
            data[31],
            data[32],
            data[33],
            data[34],
            data[35],
            data[36],
            data[37],
            data[38],
            data[39],
            data[40],
            data[41],
            data[42],
            data[43],
        ];
        assert(chaddr@ =~= data@.subrange(28, 44));
        Ok(
            Packet {
                reply: data[0] == 2,
                hops: data[3],
                xid: u32_from(data[4], data[5], data[6], data[7]),
                secs: u16_from(data[8], data[9]),
                flags: u16_from(data[10], data[11]),
                ciaddr: u32_from(data[12], data[13], data[14], data[15]),
                yiaddr: u32_from(data[16], data[17], data[18], data[19]),
                siaddr: u32_from(data[20], data[21], data[22], data[23]),
                giaddr: u32_from(data[24], data[25], data[26], data[27]),
                chaddr,
                options,
            },
        )
    }

    /// Encodes the packet at the start of `buf`; returns the encoded length.
    pub fn encode(&self, buf: &mut [u8]) -> (r: Result<usize, FormatError>)
        ensures
            final(buf)@.len() == old(buf)@.len(),
            match r {
                Ok(n) => {
                    &&& options_fit(self@)
                    &&& n == encoding(self@).len()
                    &&& n <= old(buf)@.len()
                    &&& final(buf)@.subrange(0, n as int) == encoding(self@)
                },
                Err(e) => {
                    &&& final(buf)@ == old(buf)@
                    &&& (e == FormatError::UnexpectedOptionLength) == !options_fit(self@)
                    &&& (e == FormatError::BufferTooShort) == (options_fit(self@)
                        && encoding(self@).len() > old(buf)@.len())
                    &&& (e == FormatError::UnexpectedOptionLength || e
                        == FormatError::BufferTooShort)
                },
            },
    {
        let ghost v = self@;
        let mut i: usize = 0;
        while i < self.options.len()
            invariant
                v == self@,
                0 <= i <= self.options@.len(),
                forall|k: int| 0 <= k < i ==> raw_ok(#[trigger] v.options[k]),
            decreases self.options@.len() - i,
        {
            let o = &self.options[i];
            let c = o.code();
            if c == CODE_PAD || c == CODE_END || o.payload_len() > 255 {
                assert(!raw_ok(v.options[i as int]));
                return Err(FormatError::UnexpectedOptionLength);
            }
            i = i + 1;
        }
        let mut out: Vec<u8> = Vec::new();
        out.push(if self.reply {
            2
        } else {
            1
        });
        out.push(1);
        out.push(6);
        out.push(self.hops);
        push4(&mut out, self.xid);
        push2(&mut out, self.secs);
        push2(&mut out, self.flags);
        push4(&mut out, self.ciaddr);
        push4(&mut out, self.yiaddr);
        push4(&mut out, self.siaddr);
        push4(&mut out, self.giaddr);
        let mut k: usize = 0;
        let ghost o1 = out@;
        while k < 16
            invariant
                0 <= k <= 16,
                self.chaddr@.len() == 16,
                out@ == o1 + self.chaddr@.subrange(0, k as int),
            decreases 16 - k,
        {
            out.push(self.chaddr[k]);
            k = k + 1;
            assert(out@ =~= o1 + self.chaddr@.subrange(0, k as int));
        }
        let ghost o2 = out@;
        let mut z: usize = 0;
        while z < 192
            invariant
                0 <= z <= 192,
                out@ == o2 + zeros(z as nat),
            decreases 192 - z,
        {
            out.push(0);
            z = z + 1;
            assert(out@ =~= o2 + zeros(z as nat));
        }
        out.push(0x63);
        out.push(0x82);
        out.push(0x53);
        out.push(0x63);
        assert(self.chaddr@.subrange(0, 16) =~= self.chaddr@);
        assert(out@ =~= header_bytes(v) + cookie());
        let ghost o3 = out@;
        let mut j: usize = 0;
        while j < self.options.len()
            invariant
                v == self@,
                0 <= j <= self.options@.len(),
                options_fit(v),
                out@ == o3 + raws_bytes(v.options.subrange(0, j as int)),
            decreases self.options@.len() - j,
        {
            proof {
                assert(v.options.subrange(0, j + 1) =~= v.options.subrange(0, j as int).push(
                    v.options[j as int],
                ));
                lemma_raws_bytes_push(v.options.subrange(0, j as int), v.options[j as int]);
                assert(raw_ok(v.options[j as int]));
            }
            self.options[j].write(&mut out);
            j = j + 1;
        }
        assert(v.options.subrange(0, j as int) =~= v.options);
        out.push(CODE_END);
        assert(out@ =~= encoding(v));
        if out.len() > buf.len() {
            return Err(FormatError::BufferTooShort);
        }
        let mut m: usize = 0;
        while m < out.len()
            invariant
                0 <= m <= out@.len(),
                out@.len() <= buf@.len(),
                buf@.len() == old(buf)@.len(),
                forall|q: int| 0 <= q < m ==> buf@[q] == out@[q],
            decreases out@.len() - m,
        {
            buf[m] = out[m];
            m = m + 1;
        }
        assert(buf@.subrange(0, out@.len() as int) =~= out@);
        Ok(out.len())
    }
}

/// Decoding an encoded packet gives the packet back, options in order, for
/// every packet whose options can all be written.
pub proof fn lemma_round_trip(v: PacketView)
    requires
        options_fit(v),
        v.chaddr.len() == 16,
    ensures
        decoding(encoding(v)) == Ok::<PacketView, FormatError>(v),
{
    let e = encoding(v);
    let h = header_bytes(v);
    lemma_parse_raws(v.options);
    assert(e.subrange(OPTIONS_START as int, e.len() as int) =~= raws_bytes(v.options) + seq![
        CODE_END,
    ]);
    assert(e.subrange(HEADER_LEN as int, OPTIONS_START as int) =~= cookie());
    lemma_be4(v.xid);
    lemma_be4(v.ciaddr);
    lemma_be4(v.yiaddr);
    lemma_be4(v.siaddr);
    lemma_be4(v.giaddr);
    lemma_be2(v.secs);
    lemma_be2(v.flags);
    assert(e.subrange(28, 44) =~= v.chaddr);
    assert(e[0] == if v.reply { 2u8 } else { 1u8 });
    assert(e[3] == v.hops);
    assert(sub4(e, 4) == v.xid);
    assert(u16_of(e[8], e[9]) == v.secs);
    assert(u16_of(e[10], e[11]) == v.flags);
    assert(sub4(e, 12) == v.ciaddr);
    assert(sub4(e, 16) == v.yiaddr);
    assert(sub4(e, 20) == v.siaddr);
    assert(sub4(e, 24) == v.giaddr);
}

proof fn lemma_parse_raws(os: Seq<(u8, Seq<u8>)>)
    requires
        forall|i: int| 0 <= i < os.len() ==> raw_ok(#[trigger] os[i]),
    ensures
        parse_opts(raws_bytes(os) + seq![CODE_END]) == Ok::<Seq<(u8, Seq<u8>)>, FormatError>(os),
    decreases os.len(),
{
    let s = raws_bytes(os) + seq![CODE_END];
    if os.len() == 0 {
        assert(s =~= seq![CODE_END]);
        assert(os =~= Seq::<(u8, Seq<u8>)>::empty());
    } else {
        let x = os[0];
        assert(raw_ok(x));
        let tail = os.drop_first();
        assert forall|i: int| 0 <= i < tail.len() implies raw_ok(#[trigger] tail[i]) by {
            assert(tail[i] == os[i + 1]);
        }
        lemma_parse_raws(tail);
        let l = x.1.len() as u8;
        assert(s =~= seq![x.0, l] + x.1 + (raws_bytes(tail) + seq![CODE_END]));
        assert(s[0] == x.0);
        assert(s[1] == l);
        assert(s.subrange(2, 2 + l) =~= x.1);
        assert(s.subrange(2 + l, s.len() as int) =~= raws_bytes(tail) + seq![CODE_END]);
        assert(seq![(s[0], s.subrange(2, 2 + l))] + tail =~= os);
    }
}

/// A frame long enough to hold the header and the cookie, whose cookie octets
/// are not the magic cookie, is refused for that reason.
pub proof fn lemma_cookie_gate(d: Seq<u8>)
    requires
        d.len() >= OPTIONS_START,
        d.subrange(HEADER_LEN as int, OPTIONS_START as int) != cookie(),
    ensures
        decoding(d) == Err::<PacketView, FormatError>(FormatError::MissingCookie),
{
}

} // verus!
