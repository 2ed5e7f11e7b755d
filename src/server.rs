//! The server: a bounded lease table over an inclusive address pool.
//!
//! IPv4 addresses are `u32` in host order (big-endian numeric order of the four
//! octets); instants and durations are `u64` milliseconds of a monotonic clock.

use vstd::prelude::*;
use crate::bounded::{
    one_slot, one_slot_items, one_slot_new, one_slot_push, two_slots, two_slots_items, two_slots_new,
    two_slots_push,
};
use crate::codec::{
    decoding, encoding, options_fit, FormatError, MessageType, Packet, PacketView, CODE_REQUESTED_IP,
    CODE_SERVER_ID,
};
use crate::options::{
    first_mt, first_u32, find_message_type, find_u32, is_u32_code, lemma_lookups_agree, raw_mt,
    raw_u32, reply_options, reply_raws,
};

verus! {

/// What a server is configured with.
pub struct Configuration {
    pub ip: u32,
    pub gateway: Option<u32>,
    pub subnet: Option<u32>,
    pub dns1: Option<u32>,
    pub dns2: Option<u32>,
    pub range_start: u32,
    pub range_end: u32,
    /// Lease duration in milliseconds.
    pub lease_duration: u64,
}

/// One entry of the lease table: an address bound to a client MAC until `expires`.
#[derive(Clone, Copy, Debug)]
pub struct Lease {
    pub addr: u32,
    pub mac: [u8; 6],
    pub expires: u64,
}

pub open spec fn in_pool(start: u32, end: u32, a: u32) -> bool {
    start <= a && a <= end
}

/// A lease is expired once the clock has passed its expiry instant.
pub open spec fn expired(l: Lease, now: u64) -> bool {
    now > l.expires
}

pub open spec fn has_addr(s: Seq<Lease>, a: u32) -> bool {
    exists|i: int| 0 <= i < s.len() && s[i].addr == a
}

pub open spec fn has_mac(s: Seq<Lease>, mac: Seq<u8>) -> bool {
    exists|i: int| 0 <= i < s.len() && s[i].mac@ == mac
}

/// The entry for address `a`, if any.
pub open spec fn lookup(s: Seq<Lease>, a: u32) -> Option<Lease> {
    if has_addr(s, a) {
        Some(s[choose|i: int| 0 <= i < s.len() && s[i].addr == a])
    } else {
        None
    }
}

/// The address bound to `mac`, if any.
pub open spec fn holder(s: Seq<Lease>, mac: Seq<u8>) -> Option<u32> {
    if has_mac(s, mac) {
        Some(s[choose|i: int| 0 <= i < s.len() && s[i].mac@ == mac].addr)
    } else {
        None
    }
}

/// No two entries share an address, and no two share a MAC.
pub open spec fn unique(s: Seq<Lease>) -> bool {
    forall|i: int, j: int|
        0 <= i < s.len() && 0 <= j < s.len() && i != j ==> s[i].addr != s[j].addr && s[i].mac@
            != s[j].mac@
}

/// Every entry's address lies in the pool.
pub open spec fn contained(s: Seq<Lease>, start: u32, end: u32) -> bool {
    forall|i: int| 0 <= i < s.len() ==> in_pool(start, end, #[trigger] s[i].addr)
}

/// The entry for `a` once any entry bound to `mac` is dropped.
pub open spec fn dropped(s: Seq<Lease>, mac: Seq<u8>, a: u32) -> Option<Lease> {
    if holder(s, mac) == Some(a) {
        None
    } else {
        lookup(s, a)
    }
}

/// Whether, once any entry bound to `mac` is dropped, a table of capacity `n`
/// has room for `addr`: it has an entry to overwrite or a free slot.
pub open spec fn add_fits(s: Seq<Lease>, mac: Seq<u8>, addr: u32, n: int) -> bool {
    dropped(s, mac, addr).is_some() || s.len() - (if holder(s, mac).is_some() {
        1int
    } else {
        0int
    }) < n
}

/// The first six octets of the hardware address: the client's MAC.
pub open spec fn mac_in(v: PacketView) -> Seq<u8> {
    v.chaddr.subrange(0, 6)
}

/// The lease time a reply announces: the duration in whole seconds, capped.
pub open spec fn lease_secs(duration: u64) -> u32 {
    if duration / 1000 > u32::MAX as u64 {
        u32::MAX
    } else {
        (duration / 1000) as u32
    }
}

pub open spec fn expiry(now: u64, duration: u64) -> u64 {
    if now + duration > u64::MAX {
        u64::MAX
    } else {
        (now + duration) as u64
    }
}

/// `r` is what sending `reply` came to: nothing; the reply encoded at the start
/// of `out` and its length; or why it could not be encoded in `cap` octets.
pub open spec fn sent(
    reply: Option<Packet>,
    r: Result<Option<usize>, FormatError>,
    out: Seq<u8>,
    cap: nat,
) -> bool {
    match reply {
        None => r == Ok::<Option<usize>, FormatError>(None),
        Some(p) => match r {
            Ok(Some(n)) => options_fit(p@) && n == encoding(p@).len() && out.subrange(0, n as int)
                == encoding(p@),
            Ok(None) => false,
            Err(e) => (e == FormatError::BufferTooShort && options_fit(p@) && encoding(p@).len()
                > cap) || (e == FormatError::UnexpectedOptionLength && !options_fit(p@)),
        },
    }
}

proof fn lemma_reply_witness<const N: usize>(
    s0: Server<N>,
    s1: Server<N>,
    v: PacketView,
    now: u64,
    reply: Option<Packet>,
    r: Result<Option<usize>, FormatError>,
    out: Seq<u8>,
    cap: nat,
)
    requires
        s0.outcome_view(&s1, v, now, reply),
        sent(reply, r, out, cap),
    ensures
        handled(&s0, &s1, v, now, r, out, cap),
{
}

/// Handling the request `v` at `now` took the server from `s0` to `s1` and
/// came to `r`, with `out` the buffer of `cap` octets afterwards: some reply
/// meets the outcome, and `r` is what sending it came to.
pub open spec fn handled<const N: usize>(
    s0: &Server<N>,
    s1: &Server<N>,
    v: PacketView,
    now: u64,
    r: Result<Option<usize>, FormatError>,
    out: Seq<u8>,
    cap: nat,
) -> bool {
    exists|reply: Option<Packet>| #[trigger] s0.outcome_view(s1, v, now, reply) && sent(reply, r, out, cap)
}

/// The availability predicate: in the pool, and free, held by `mac`, or expired.
pub open spec fn available_for(s: Seq<Lease>, start: u32, end: u32, mac: Seq<u8>, a: u32, now: u64) -> bool {
    in_pool(start, end, a) && match lookup(s, a) {
        None => true,
        Some(l) => l.mac@ == mac || expired(l, now),
    }
}

/// The least address of the pool that has no entry, if any.
pub open spec fn first_free(s: Seq<Lease>, start: u32, end: u32) -> Option<u32> {
    if exists|a: u32| in_pool(start, end, a) && !has_addr(s, a) {
        Some(
            choose|a: u32|
                in_pool(start, end, a) && !has_addr(s, a) && forall|b: u32|
                    start <= b < a ==> has_addr(s, b),
        )
    } else {
        None
    }
}

/// The index of the first expired entry, if any.
pub open spec fn first_expired(s: Seq<Lease>, now: u64) -> Option<int> {
    if exists|i: int| 0 <= i < s.len() && expired(s[i], now) {
        Some(
            choose|i: int|
                0 <= i < s.len() && expired(s[i], now) && forall|j: int|
                    0 <= j < i ==> !expired(s[j], now),
        )
    } else {
        None
    }
}

proof fn lemma_lookup_at(s: Seq<Lease>, i: int)
    requires
        unique(s),
        0 <= i < s.len(),
    ensures
        lookup(s, s[i].addr) == Some(s[i]),
        holder(s, s[i].mac@) == Some(s[i].addr),
{
    assert(has_addr(s, s[i].addr));
    assert(has_mac(s, s[i].mac@));
}


proof fn lemma_lookup_absent(s: Seq<Lease>, a: u32)
    requires
        !has_addr(s, a),
    ensures
        lookup(s, a) == None::<Lease>,
{
}

/// Removing entry `i` drops its address and MAC and keeps every other entry.
proof fn lemma_remove(s: Seq<Lease>, i: int, start: u32, end: u32)
    requires
        unique(s),
        0 <= i < s.len(),
    ensures
        unique(s.remove(i)),
        contained(s, start, end) ==> contained(s.remove(i), start, end),
        forall|a: u32|
            #![trigger lookup(s.remove(i), a)]
            lookup(s.remove(i), a) == if a == s[i].addr {
                None
            } else {
                lookup(s, a)
            },
        forall|m: Seq<u8>|
            #![trigger holder(s.remove(i), m)]
            holder(s.remove(i), m) == if m == s[i].mac@ {
                None
            } else {
                holder(s, m)
            },
{
    let r = s.remove(i);
    assert forall|j: int| 0 <= j < r.len() implies r[j] == s[if j < i { j } else { j + 1 }] by {}
    assert forall|a: u32|
        #![trigger lookup(r, a)]
        lookup(r, a) == if a == s[i].addr {
            None
        } else {
            lookup(s, a)
        } by {
        if has_addr(r, a) {
            let j = choose|j: int| 0 <= j < r.len() && r[j].addr == a;
            let k = if j < i { j } else { j + 1 };
            lemma_lookup_at(r, j);
            lemma_lookup_at(s, k);
        } else {
            if a != s[i].addr && has_addr(s, a) {
                let k = choose|k: int| 0 <= k < s.len() && s[k].addr == a;
                let j = if k < i { k } else { k - 1 };
                assert(r[j].addr == a);
            }
        }
    }
    assert forall|m: Seq<u8>|
        #![trigger holder(r, m)]
        holder(r, m) == if m == s[i].mac@ {
            None
        } else {
            holder(s, m)
        } by {
        if has_mac(r, m) {
            let j = choose|j: int| 0 <= j < r.len() && r[j].mac@ == m;
            let k = if j < i { j } else { j + 1 };
            lemma_lookup_at(r, j);
            lemma_lookup_at(s, k);
        } else {
            if m != s[i].mac@ && has_mac(s, m) {
                let k = choose|k: int| 0 <= k < s.len() && s[k].mac@ == m;
                let j = if k < i { k } else { k - 1 };
                assert(r[j].mac@ == m);
            }
        }
    }
}

/// Overwriting entry `i` with an entry of the same address and a MAC held by no
/// entry rebinds that address and keeps every other entry.
proof fn lemma_update(s: Seq<Lease>, i: int, l: Lease, start: u32, end: u32)
    requires
        unique(s),
        0 <= i < s.len(),
        s[i].addr == l.addr,
        !has_mac(s, l.mac@),
    ensures
        unique(s.update(i, l)),
        contained(s, start, end) ==> contained(s.update(i, l), start, end),
        forall|a: u32|
            #![trigger lookup(s.update(i, l), a)]
            lookup(s.update(i, l), a) == if a == l.addr {
                Some(l)
            } else {
                lookup(s, a)
            },
{
    let r = s.update(i, l);
    lemma_lookup_at(r, i);
    assert forall|a: u32|
        #![trigger lookup(r, a)]
        a != l.addr implies lookup(r, a) == lookup(s, a) by {
        if has_addr(r, a) {
            let j = choose|j: int| 0 <= j < r.len() && r[j].addr == a;
            lemma_lookup_at(r, j);
            lemma_lookup_at(s, j);
        } else {
            if has_addr(s, a) {
                let k = choose|k: int| 0 <= k < s.len() && s[k].addr == a;
                assert(r[k].addr == a);
            }
        }
    }
}

/// Appending an entry whose address and MAC are new adds just that entry.
proof fn lemma_push(s: Seq<Lease>, l: Lease, start: u32, end: u32)
    requires
        unique(s),
        !has_addr(s, l.addr),
        !has_mac(s, l.mac@),
    ensures
        unique(s.push(l)),
        contained(s, start, end) && in_pool(start, end, l.addr) ==> contained(
            s.push(l),
            start,
            end,
        ),
        forall|a: u32|
            #![trigger lookup(s.push(l), a)]
            lookup(s.push(l), a) == if a == l.addr {
                Some(l)
            } else {
                lookup(s, a)
            },
{
    let r = s.push(l);
    assert(r[s.len() as int] == l);
    assert forall|j: int| 0 <= j < s.len() implies r[j] == s[j] by {}
    assert forall|j: int| 0 <= j < s.len() implies s[j].addr != l.addr && s[j].mac@ != l.mac@ by {
        assert(s[j].addr != l.addr);
        if s[j].mac@ == l.mac@ {
            assert(has_mac(s, l.mac@));
        }
    }
    assert(unique(r));
    lemma_lookup_at(r, s.len() as int);
    assert forall|a: u32|
        #![trigger lookup(r, a)]
        a != l.addr implies lookup(r, a) == lookup(s, a) by {
        if has_addr(r, a) {
            let j = choose|j: int| 0 <= j < r.len() && r[j].addr == a;
            lemma_lookup_at(r, j);
            lemma_lookup_at(s, j);
        }
    }
}

/// Compares two MAC addresses.
pub fn mac_eq(a: &[u8; 6], b: &[u8; 6]) -> (r: bool)
    ensures
        r == (a@ == b@),
{
    let mut i: usize = 0;
    while i < 6
        invariant
            0 <= i <= 6,
            a@.len() == 6,
            b@.len() == 6,
            forall|k: int| 0 <= k < i ==> a@[k] == b@[k],
        decreases 6 - i,
    {
        if a[i] != b[i] {
            return false;
        }
        i = i + 1;
    }
    assert(a@ =~= b@);
    true
}

pub struct Server<const N: usize> {
    ip: u32,
    gateways: heapless::Vec<u32, 1>,
    subnet: Option<u32>,
    dns: heapless::Vec<u32, 2>,
    range_start: u32,
    range_end: u32,
    lease_duration: u64,
    leases: Vec<Lease>,
}

impl<const N: usize> Server<N> {
    /// The lease table, in insertion order.
    pub closed spec fn table(&self) -> Seq<Lease> {
        self.leases@
    }

    pub closed spec fn pool_start(&self) -> u32 {
        self.range_start
    }

    pub closed spec fn pool_end(&self) -> u32 {
        self.range_end
    }

    pub closed spec fn server_ip(&self) -> u32 {
        self.ip
    }

    pub closed spec fn duration(&self) -> u64 {
        self.lease_duration
    }

    pub closed spec fn gateway_list(&self) -> Seq<u32> {
        one_slot(self.gateways)
    }

    pub closed spec fn subnet_mask(&self) -> Option<u32> {
        self.subnet
    }

    pub closed spec fn dns_list(&self) -> Seq<u32> {
        two_slots(self.dns)
    }

    /// Everything but the lease table is as in `o`.
    pub open spec fn same_config(&self, o: &Self) -> bool {
        &&& self.server_ip() == o.server_ip()
        &&& self.gateway_list() == o.gateway_list()
        &&& self.subnet_mask() == o.subnet_mask()
        &&& self.dns_list() == o.dns_list()
        &&& self.pool_start() == o.pool_start()
        &&& self.pool_end() == o.pool_end()
        &&& self.duration() == o.duration()
    }

    /// The table's invariant: bounded by `N`, one entry per address and per MAC,
    /// every address in the pool.
    pub closed spec fn inv(&self) -> bool {
        &&& self.leases@.len() <= N
        &&& unique(self.leases@)
        &&& contained(self.leases@, self.range_start, self.range_end)
    }

    pub fn new(conf: &Configuration) -> (r: Self)
        ensures
            r.inv(),
            r.table().len() == 0,
            r.server_ip() == conf.ip,
            r.pool_start() == conf.range_start,
            r.pool_end() == conf.range_end,
            r.duration() == conf.lease_duration,
            r.subnet_mask() == conf.subnet,
            r.gateway_list() == (match conf.gateway {
                Some(g) => seq![g],
                None => Seq::<u32>::empty(),
            }),
            r.dns_list() == (match conf.dns1 {
                Some(d) => seq![d],
                None => Seq::<u32>::empty(),
            }) + (match conf.dns2 {
                Some(d) => seq![d],
                None => Seq::<u32>::empty(),
            }),
    {
        let mut gateways = one_slot_new();
        if let Some(g) = conf.gateway {
            one_slot_push(&mut gateways, g);
        }
        let mut dns = two_slots_new();
        if let Some(d) = conf.dns1 {
            two_slots_push(&mut dns, d);
        }
        if let Some(d) = conf.dns2 {
            two_slots_push(&mut dns, d);
        }
        proof {
            assert(one_slot(gateways) =~= (match conf.gateway {
                Some(g) => seq![g],
                None => Seq::<u32>::empty(),
            }));
            assert(two_slots(dns) =~= (match conf.dns1 {
                Some(d) => seq![d],
                None => Seq::<u32>::empty(),
            }) + (match conf.dns2 {
                Some(d) => seq![d],
                None => Seq::<u32>::empty(),
            }));
        }
        Server {
            ip: conf.ip,
            gateways,
            subnet: conf.subnet,
            dns,
            range_start: conf.range_start,
            range_end: conf.range_end,
            lease_duration: conf.lease_duration,
            leases: Vec::new(),
        }
    }

    /// The position of the entry for `addr`.
    fn find_addr(&self, addr: u32) -> (r: Option<usize>)
        ensures
            match r {
                Some(i) => i < self.leases@.len() && self.leases@[i as int].addr == addr,
                None => !has_addr(self.leases@, addr),
            },
    {
        let mut i: usize = 0;
        while i < self.leases.len()
            invariant
                0 <= i <= self.leases@.len(),
                forall|k: int| 0 <= k < i ==> self.leases@[k].addr != addr,
            decreases self.leases@.len() - i,
        {
            if self.leases[i].addr == addr {
                return Some(i);
            }
            i = i + 1;
        }
        None
    }

    /// The position of the entry bound to `mac`.
    fn find_mac(&self, mac: &[u8; 6]) -> (r: Option<usize>)
        ensures
            match r {
                Some(i) => i < self.leases@.len() && self.leases@[i as int].mac@ == mac@,
                None => !has_mac(self.leases@, mac@),
            },
    {
        let mut i: usize = 0;
        while i < self.leases.len()
            invariant
                0 <= i <= self.leases@.len(),
                forall|k: int| 0 <= k < i ==> self.leases@[k].mac@ != mac@,
            decreases self.leases@.len() - i,
        {
            if mac_eq(&self.leases[i].mac, mac) {
                return Some(i);
            }
            i = i + 1;
        }
        None
    }


    /// Removes the entry bound to `mac`, if any; tells whether there was one.
    pub fn remove_lease(&mut self, mac: &[u8; 6]) -> (r: bool)
        requires
            old(self).inv(),
        ensures
            final(self).inv(),
            r == holder(old(self).table(), mac@).is_some(),
            holder(final(self).table(), mac@) == None::<u32>,
            forall|a: u32|
                #![trigger lookup(final(self).table(), a)]
                lookup(final(self).table(), a) == if holder(old(self).table(), mac@) == Some(a) {
                    None
                } else {
                    lookup(old(self).table(), a)
                },
            forall|m: Seq<u8>|
                #![trigger holder(final(self).table(), m)]
                m != mac@ ==> holder(final(self).table(), m) == holder(old(self).table(), m),
            final(self).table().len() == old(self).table().len() - if r {
                1int
            } else {
                0int
            },
            final(self).same_config(old(self)),
    {
        match self.find_mac(mac) {
            None => {
                assert(!has_mac(self.leases@, mac@));
                false
            },
            Some(i) => {
                proof {
                    lemma_lookup_at(self.leases@, i as int);
                    lemma_remove(self.leases@, i as int, self.range_start, self.range_end);
                }
                self.leases.remove(i);
                true
            },
        }
    }

    /// Binds `addr` to `mac` until `expires`, first dropping any entry bound to
    /// `mac`. Fails, with only that drop done, when `addr` has no entry and the
    /// table is full.
    pub fn add_lease(&mut self, addr: u32, mac: [u8; 6], expires: u64) -> (r: bool)
        requires
            old(self).inv(),
            in_pool(old(self).pool_start(), old(self).pool_end(), addr),
        ensures
            final(self).inv(),
            final(self).same_config(old(self)),
            r == add_fits(old(self).table(), mac@, addr, N as int),
            forall|a: u32|
                #![trigger lookup(final(self).table(), a)]
                lookup(final(self).table(), a) == if r && a == addr {
                    Some(Lease { addr, mac, expires })
                } else {
                    dropped(old(self).table(), mac@, a)
                },
    {
        let ghost s0 = self.leases@;
        let had = self.remove_lease(&mac);
        let ghost s1 = self.leases@;
        proof {
            if had {
                let i = choose|i: int| 0 <= i < s0.len() && s0[i].mac@ == mac@;
                lemma_lookup_at(s0, i);
            }
        }
        let l = Lease { addr, mac, expires };
        match self.find_addr(addr) {
            Some(i) => {
                proof {
                    lemma_lookup_at(s1, i as int);
                    lemma_update(s1, i as int, l, self.range_start, self.range_end);
                }
                self.leases.set(i, l);
                true
            },
            None => {
                proof {
                    lemma_lookup_absent(s1, addr);
                }
                if self.leases.len() < N {
                    proof {
                        lemma_push(s1, l, self.range_start, self.range_end);
                    }
                    self.leases.push(l);
                    true
                } else {
                    false
                }
            },
        }
    }

    /// Finds an address to offer: the least address of the pool without an
    /// entry; failing that, the first expired entry, which is removed.
    pub fn available(&mut self, now: u64) -> (r: Option<u32>)
        requires
            old(self).inv(),
        ensures
            final(self).inv(),
            final(self).same_config(old(self)),
            match first_free(old(self).table(), old(self).pool_start(), old(self).pool_end()) {
                Some(a) => r == Some(a) && final(self).table() == old(self).table(),
                None => match first_expired(old(self).table(), now) {
                    Some(i) => r == Some(old(self).table()[i].addr) && final(self).table()
                        == old(self).table().remove(i),
                    None => r == None::<u32> && final(self).table() == old(self).table(),
                },
            },
            r matches Some(a) ==> {
                &&& in_pool(old(self).pool_start(), old(self).pool_end(), a)
                &&& lookup(final(self).table(), a) == None::<Lease>
                &&& match lookup(old(self).table(), a) {
                    None => true,
                    Some(l) => expired(l, now),
                }
            },
    {
        let ghost s = self.leases@;
        let start = self.range_start;
        let end = self.range_end;
        let mut pos: u64 = start as u64;
        while pos <= end as u64
            invariant
                s == self.leases@,
                s == old(self).leases@,
                self.inv(),
                self.same_config(old(self)),
                start == self.range_start,
                end == self.range_end,
                start <= pos <= end as u64 + 1 || (start > end && pos == start),
                forall|b: u32| start <= b && (b as u64) < pos ==> has_addr(s, b),
            decreases end as u64 + 1 - pos,
        {
            let addr = pos as u32;
            match self.find_addr(addr) {
                None => {
                    proof {
                        lemma_lookup_absent(s, addr);
                        let c = choose|a: u32|
                            in_pool(start, end, a) && !has_addr(s, a) && forall|b: u32|
                                start <= b < a ==> has_addr(s, b);
                        assert(in_pool(start, end, addr) && !has_addr(s, addr) && forall|b: u32|
                            start <= b < addr ==> has_addr(s, b));
                        if c < addr {
                            assert(has_addr(s, c));
                        }
                        if addr < c {
                            assert(has_addr(s, addr));
                        }
                        assert(c == addr);
                    }
                    return Some(addr);
                },
                Some(_) => {},
            }
            pos = pos + 1;
        }
        assert(first_free(s, start, end) == None::<u32>) by {
            if exists|a: u32| in_pool(start, end, a) && !has_addr(s, a) {
                let a = choose|a: u32| in_pool(start, end, a) && !has_addr(s, a);
                assert(has_addr(s, a));
            }
        }
        let mut i: usize = 0;
        while i < self.leases.len()
            invariant
                s == self.leases@,
                s == old(self).leases@,
                self.inv(),
                self.same_config(old(self)),
                first_free(s, start, end) == None::<u32>,
                start == self.range_start,
                end == self.range_end,
                0 <= i <= s.len(),
                forall|j: int| 0 <= j < i ==> !expired(s[j], now),
            decreases s.len() - i,
        {
            if now > self.leases[i].expires {
                let addr = self.leases[i].addr;
                proof {
                    assert(0 <= i < s.len() && expired(s[i as int], now) && forall|j: int|
                        0 <= j < i ==> !expired(s[j], now));
                    let c = choose|k: int|
                        0 <= k < s.len() && expired(s[k], now) && forall|j: int|
                            0 <= j < k ==> !expired(s[j], now);
                    if (c as int) < (i as int) {
                        assert(!expired(s[c], now));
                    }
                    if (i as int) < c {
                        assert(expired(s[i as int], now));
                    }
                    assert(c == i as int);
                    assert(first_expired(s, now) == Some(i as int));
                    lemma_lookup_at(s, i as int);
                    lemma_remove(s, i as int, start, end);
                    assert(lookup(s.remove(i as int), addr) == None::<Lease>);
                }
                self.leases.remove(i);
                return Some(addr);
            }
            i = i + 1;
        }
        None
    }

    /// The reply this server sends to the request `req`, of type `mt`,
    /// assigning `ip`.
    pub open spec fn reply_view(&self, req: PacketView, mt: MessageType, ip: Option<u32>) -> PacketView {
        PacketView {
            reply: true,
            hops: 0,
            xid: req.xid,
            secs: 0,
            flags: req.flags,
            ciaddr: req.ciaddr,
            yiaddr: match ip {
                Some(a) => a,
                None => 0,
            },
            siaddr: 0,
            giaddr: req.giaddr,
            chaddr: req.chaddr,
            options: reply_raws(
                mt,
                self.server_ip(),
                lease_secs(self.duration()),
                self.gateway_list(),
                self.subnet_mask(),
                self.dns_list(),
            ),
        }
    }

    /// `r` is an OFFER of `a` and the table is `next`'s.
    pub open spec fn offers(&self, next: &Self, req: PacketView, a: u32, r: Option<Packet>) -> bool {
        &&& r matches Some(p) && p@ == self.reply_view(req, MessageType::Offer, Some(a))
        &&& next.table() == self.table()
    }

    /// What handling the request `req` at `now` does, from this state to `next`,
    /// replying `r`, where the request's message type, server identifier and
    /// requested address are `mt`, `sid` and `wanted`.
    ///
    /// The server acts only on a request with a message type whose server
    /// identifier is ours, or on a DISCOVER without one.
    pub open spec fn outcome_with(
        &self,
        next: &Self,
        req: PacketView,
        mt: Option<MessageType>,
        sid: Option<u32>,
        wanted: Option<u32>,
        now: u64,
        r: Option<Packet>,
    ) -> bool {
        let s = self.table();
        let mac = mac_in(req);
        let start = self.pool_start();
        let end = self.pool_end();
        let addressed = !req.reply && mt.is_some() && (sid == Some(self.server_ip()) || (
        sid.is_none() && mt == Some(MessageType::Discover)));
        if !addressed {
            r.is_none() && next.table() == s
        } else {
            match mt.unwrap() {
                MessageType::Discover => {
                    if wanted.is_some() && available_for(s, start, end, mac, wanted.unwrap(), now) {
                        self.offers(next, req, wanted.unwrap(), r)
                    } else if holder(s, mac).is_some() {
                        self.offers(next, req, holder(s, mac).unwrap(), r)
                    } else {
                        match first_free(s, start, end) {
                            Some(a) => self.offers(next, req, a, r),
                            None => match first_expired(s, now) {
                                Some(i) => r matches Some(p) && p@ == self.reply_view(
                                    req,
                                    MessageType::Offer,
                                    Some(s[i].addr),
                                ) && next.table() == s.remove(i),
                                None => r.is_none() && next.table() == s,
                            },
                        }
                    }
                },
                MessageType::Request => {
                    let ip = match wanted {
                        Some(x) => x,
                        None => req.ciaddr,
                    };
                    if !available_for(s, start, end, mac, ip, now) {
                        &&& r matches Some(p) && p@ == self.reply_view(req, MessageType::Nak, None)
                        &&& next.table() == s
                    } else if add_fits(s, mac, ip, N as int) {
                        &&& r matches Some(p) && p@ == self.reply_view(req, MessageType::Ack, Some(ip))
                        &&& lookup(next.table(), ip) matches Some(l) && l.mac@ == mac && l.expires
                            == expiry(now, self.duration())
                        &&& forall|a: u32|
                            a != ip ==> #[trigger] lookup(next.table(), a) == dropped(s, mac, a)
                    } else {
                        &&& r matches Some(p) && p@ == self.reply_view(req, MessageType::Nak, None)
                        &&& forall|a: u32| #[trigger] lookup(next.table(), a) == dropped(s, mac, a)
                    }
                },
                MessageType::Decline | MessageType::Release => {
                    &&& r.is_none()
                    &&& forall|a: u32| #[trigger] lookup(next.table(), a) == dropped(s, mac, a)
                },
                _ => r.is_none() && next.table() == s,
            }
        }
    }

    /// What handling the packet `req` does, reading its typed options.
    pub open spec fn outcome(&self, next: &Self, req: Packet, now: u64, r: Option<Packet>) -> bool {
        self.outcome_with(
            next,
            req@,
            first_mt(req.options@),
            first_u32(req.options@, CODE_SERVER_ID),
            first_u32(req.options@, CODE_REQUESTED_IP),
            now,
            r,
        )
    }

    /// What handling a request whose view is `v` does, reading its raw options.
    pub open spec fn outcome_view(&self, next: &Self, v: PacketView, now: u64, r: Option<Packet>) -> bool {
        self.outcome_with(
            next,
            v,
            raw_mt(v.options),
            raw_u32(v.options, CODE_SERVER_ID),
            raw_u32(v.options, CODE_REQUESTED_IP),
            now,
            r,
        )
    }

    fn reply_to(&self, req: &Packet, mt: MessageType, ip: Option<u32>) -> (r: Packet)
        ensures
            r@ == self.reply_view(req@, mt, ip),
    {
        let secs = self.lease_duration / 1000;
        let secs: u32 = if secs > u32::MAX as u64 {
            u32::MAX
        } else {
            secs as u32
        };
        let options = reply_options(
            mt,
            self.ip,
            secs,
            one_slot_items(&self.gateways),
            self.subnet,
            two_slots_items(&self.dns),
        );
        req.new_reply(ip, options)
    }

    /// Decides the reply to one request, and updates the lease table.
    pub fn handle_request(&mut self, req: &Packet, now: u64) -> (r: Option<Packet>)
        requires
            old(self).inv(),
        ensures
            final(self).inv(),
            final(self).same_config(old(self)),
            old(self).outcome(final(self), *req, now, r),
    {
        let ghost s = self.leases@;
        let c = &req.chaddr;
        let mac: [u8; 6] = [c[0], c[1], c[2], c[3], c[4], c[5]];
        assert(mac@ =~= mac_in(req@));
        if req.reply {
            return None;
        }
        let mt = match find_message_type(&req.options) {
            Some(m) => m,
            None => {
                return None;
            },
        };
        let sid = find_u32(&req.options, CODE_SERVER_ID);
        let ours = match sid {
            Some(x) => x == self.ip,
            None => mt == MessageType::Discover,
        };
        if !ours {
            return None;
        }
        match mt {
            MessageType::Discover => {
                let wanted = find_u32(&req.options, CODE_REQUESTED_IP);
                if let Some(x) = wanted {
                    if self.is_available(&mac, x, now) {
                        return Some(self.reply_to(req, MessageType::Offer, Some(x)));
                    }
                }
                if let Some(a) = self.current_lease(&mac) {
                    return Some(self.reply_to(req, MessageType::Offer, Some(a)));
                }
                match self.available(now) {
                    Some(a) => Some(self.reply_to(req, MessageType::Offer, Some(a))),
                    None => None,
                }
            },
            MessageType::Request => {
                let ip = match find_u32(&req.options, CODE_REQUESTED_IP) {
                    Some(x) => x,
                    None => req.ciaddr,
                };
                if !self.is_available(&mac, ip, now) {
                    return Some(self.reply_to(req, MessageType::Nak, None));
                }
                let expires = if now > u64::MAX - self.lease_duration {
                    u64::MAX
                } else {
                    now + self.lease_duration
                };
                if self.add_lease(ip, mac, expires) {
                    Some(self.reply_to(req, MessageType::Ack, Some(ip)))
                } else {
                    Some(self.reply_to(req, MessageType::Nak, None))
                }
            },
            MessageType::Decline | MessageType::Release => {
                self.remove_lease(&mac);
                None
            },
            _ => None,
        }
    }

    /// Handles the frame in `buf[..len]`: a malformed frame, or one this server
    /// does not act on, is dropped; a reply is encoded at the start of `buf`
    /// and its length returned.
    pub fn handle(&mut self, buf: &mut [u8], len: usize, now: u64) -> (r: Result<
        Option<usize>,
        FormatError,
    >)
        requires
            old(self).inv(),
            len <= old(buf)@.len(),
        ensures
            final(self).inv(),
            final(self).same_config(old(self)),
            final(buf)@.len() == old(buf)@.len(),
            decoding(old(buf)@.subrange(0, len as int)) is Err ==> r == Ok::<
                Option<usize>,
                FormatError,
            >(None) && final(self).table() == old(self).table(),
            decoding(old(buf)@.subrange(0, len as int)) matches Ok(v) ==> handled(
                old(self),
                final(self),
                v,
                now,
                r,
                final(buf)@,
                old(buf)@.len(),
            ),
    {
        let req = match Packet::decode(vstd::slice::slice_subrange(buf, 0, len)) {
            Ok(p) => p,
            Err(_) => {
                return Ok(None);
            },
        };
        let ghost s0 = *self;
        let reply = self.handle_request(&req, now);
        proof {
            lemma_lookups_agree(req.options@);
            assert(is_u32_code(CODE_SERVER_ID) && is_u32_code(CODE_REQUESTED_IP));
            assert(first_u32(req.options@, CODE_SERVER_ID) == raw_u32(req@.options, CODE_SERVER_ID));
            assert(first_u32(req.options@, CODE_REQUESTED_IP) == raw_u32(
                req@.options,
                CODE_REQUESTED_IP,
            ));
            assert(s0.outcome_view(self, req@, now, reply));
        }
        let ghost rg = reply;
        let r = match reply {
            None => Ok(None),
            Some(p) => match p.encode(buf) {
                Ok(n) => Ok(Some(n)),
                Err(e) => Err(e),
            },
        };
        proof {
            lemma_reply_witness(s0, *self, req@, now, rg, r, buf@, old(buf)@.len());
        }
        r
    }

    /// Whether `addr` may be handed to `mac` at instant `now`.
    pub fn is_available(&self, mac: &[u8; 6], addr: u32, now: u64) -> (r: bool)
        requires
            self.inv(),
        ensures
            r == available_for(self.table(), self.pool_start(), self.pool_end(), mac@, addr, now),
    {
        if addr < self.range_start || addr > self.range_end {
            return false;
        }
        match self.find_addr(addr) {
            None => true,
            Some(i) => {
                proof {
                    lemma_lookup_at(self.leases@, i as int);
                }
                mac_eq(&self.leases[i].mac, mac) || now > self.leases[i].expires
            },
        }
    }

    /// The entry for `addr`, if any.
    pub fn lease(&self, addr: u32) -> (r: Option<Lease>)
        requires
            self.inv(),
        ensures
            r == lookup(self.table(), addr),
    {
        match self.find_addr(addr) {
            None => None,
            Some(i) => {
                proof {
                    lemma_lookup_at(self.leases@, i as int);
                }
                Some(self.leases[i])
            },
        }
    }

    /// The address currently bound to `mac`, if any.
    pub fn current_lease(&self, mac: &[u8; 6]) -> (r: Option<u32>)
        requires
            self.inv(),
        ensures
            r == holder(self.table(), mac@),
    {
        match self.find_mac(mac) {
            None => None,
            Some(i) => {
                proof {
                    lemma_lookup_at(self.leases@, i as int);
                }
                Some(self.leases[i].addr)
            },
        }
    }
}

/// A lease table that a server reaches (by `new` and any sequence of its
/// operations, each of which keeps the invariant) holds at most one entry for
/// each MAC.
pub proof fn lemma_single_lease_per_mac<const N: usize>(s: &Server<N>, i: int, j: int)
    requires
        s.inv(),
        0 <= i < s.table().len(),
        0 <= j < s.table().len(),
        i != j,
    ensures
        s.table()[i].mac@ != s.table()[j].mac@,
{
}

/// A reachable lease table holds at most `N` entries, with no address twice.
pub proof fn lemma_table_bounds<const N: usize>(s: &Server<N>)
    requires
        s.inv(),
    ensures
        s.table().len() <= N,
        unique(s.table()),
{
}

/// Adding a lease fails exactly when the address has no entry, the MAC holds
/// none, and the table is full.
pub proof fn lemma_add_fails_only_when_full<const N: usize>(s: &Server<N>, mac: Seq<u8>, addr: u32)
    requires
        s.inv(),
    ensures
        !add_fits(s.table(), mac, addr, N as int) <==> (lookup(s.table(), addr).is_none() && holder(
            s.table(),
            mac,
        ).is_none() && s.table().len() == N),
{
    let t = s.table();
    if holder(t, mac).is_some() {
        assert(has_mac(t, mac));
        let i = choose|i: int| 0 <= i < t.len() && t[i].mac@ == mac;
        assert(t.len() >= 1);
    }
}

/// Every address in a reachable lease table lies in the pool.
pub proof fn lemma_pool_containment<const N: usize>(s: &Server<N>, i: int)
    requires
        s.inv(),
        0 <= i < s.table().len(),
    ensures
        in_pool(s.pool_start(), s.pool_end(), s.table()[i].addr),
{
}

} // verus!
