//! The client's decisions: what an attempt sends, which frames end a
//! transaction, when to try again and when to give up.
//!
//! Instants and durations are `u64` milliseconds of a monotonic clock.

use vstd::prelude::*;
use crate::codec::{decoding, FormatError, MessageType, Packet, PacketView};
use crate::error::Error;
use crate::options::{lemma_reply_agrees, raw_mt, reply_view_for, settings_view, Settings};

verus! {

/// What a client is configured with.
pub struct Configuration {
    pub mac: [u8; 6],
    pub retries: usize,
    /// How long each attempt waits for a reply, in milliseconds.
    pub timeout: u64,
}

pub const DEFAULT_RETRIES: usize = 10;
pub const DEFAULT_TIMEOUT: u64 = 10000;

impl Configuration {
    /// The default policy for `mac`: ten attempts of ten seconds each.
    pub fn new(mac: [u8; 6]) -> (r: Configuration)
        ensures
            r.mac == mac,
            r.retries == DEFAULT_RETRIES,
            r.timeout == DEFAULT_TIMEOUT,
    {
        Configuration { mac, retries: DEFAULT_RETRIES, timeout: DEFAULT_TIMEOUT }
    }
}

pub struct Client {
    pub mac: [u8; 6],
    pub retries: usize,
    pub timeout: u64,
}

/// One transaction: its identifier, when it began, and how many attempts it has
/// made of how many it may make.
pub struct Exchange {
    pub xid: u32,
    pub start: u64,
    pub attempt: usize,
    pub retries: usize,
}

/// Whole seconds from `start` to `now`, saturating at both ends.
pub open spec fn secs_between(start: u64, now: u64) -> u16 {
    if now <= start {
        0
    } else if (now - start) / 1000 > u16::MAX as int {
        u16::MAX
    } else {
        ((now - start) / 1000) as u16
    }
}

/// What a decoded frame means to a transaction: the reply's type and settings
/// if it is meant for this client and of an expected type.
pub open spec fn accepted(v: PacketView, mac: Seq<u8>, xid: u32, expected: Seq<MessageType>) -> Option<
    (MessageType, Settings),
> {
    if reply_view_for(v, mac, xid) && expected.contains(raw_mt(v.options).unwrap()) {
        Some((raw_mt(v.options).unwrap(), settings_view(v)))
    } else {
        None
    }
}

fn contains_type(expected: &[MessageType], m: MessageType) -> (r: bool)
    ensures
        r == expected@.contains(m),
{
    let mut i: usize = 0;
    while i < expected.len()
        invariant
            0 <= i <= expected@.len(),
            forall|k: int| 0 <= k < i ==> expected@[k] != m,
        decreases expected@.len() - i,
    {
        if expected[i] == m {
            return true;
        }
        i = i + 1;
    }
    false
}

impl Client {
    pub fn new(conf: &Configuration) -> (r: Client)
        ensures
            r.mac == conf.mac,
            r.retries == conf.retries,
            r.timeout == conf.timeout,
    {
        Client { mac: conf.mac, retries: conf.retries, timeout: conf.timeout }
    }

    /// Starts a transaction with identifier `xid` at `start`; `None` where the
    /// client may make no attempt at all.
    pub fn begin(&self, xid: u32, start: u64) -> (r: Option<Exchange>)
        ensures
            r.is_some() == (self.retries > 0),
            r matches Some(e) ==> e.xid == xid && e.start == start && e.attempt == 0 && e.retries
                == self.retries,
    {
        if self.retries == 0 {
            None
        } else {
            Some(Exchange { xid, start, attempt: 0, retries: self.retries })
        }
    }

    /// Reads a frame received during a transaction. A frame that does not
    /// decode fails the transaction; one that is not for this client, or not
    /// of an expected type, is passed over (`Ok(None)`).
    pub fn accept(&self, frame: &[u8], xid: u32, expected: &[MessageType]) -> (r: Result<
        Option<(MessageType, Settings)>,
        FormatError,
    >)
        ensures
            match decoding(frame@) {
                Err(e) => r == Err::<Option<(MessageType, Settings)>, FormatError>(e),
                Ok(v) => r == Ok::<Option<(MessageType, Settings)>, FormatError>(
                    accepted(v, self.mac@, xid, expected@),
                ),
            },
    {
        let p = match Packet::decode(frame) {
            Ok(p) => p,
            Err(e) => {
                return Err(e);
            },
        };
        let found = match p.parse_reply(&self.mac, xid) {
            Some((m, st)) => {
                if contains_type(expected, m) {
                    Some((m, st))
                } else {
                    None
                }
            },
            None => None,
        };
        proof {
            lemma_reply_agrees(p, self.mac@, xid);
        }
        assert(found == accepted(p@, self.mac@, xid, expected@));
        Ok(found)
    }
}

impl Exchange {
    /// The `secs` field of a request sent at `now`.
    pub fn secs(&self, now: u64) -> (r: u16)
        ensures
            r == secs_between(self.start, now),
    {
        if now <= self.start {
            0
        } else {
            let d = (now - self.start) / 1000;
            if d > u16::MAX as u64 {
                u16::MAX
            } else {
                d as u16
            }
        }
    }

    /// An attempt timed out: counts it, and tells whether another may be made.
    pub fn next_attempt(&mut self) -> (r: bool)
        requires
            old(self).attempt < old(self).retries,
        ensures
            final(self).xid == old(self).xid,
            final(self).start == old(self).start,
            final(self).retries == old(self).retries,
            final(self).attempt == old(self).attempt + 1,
            r == (final(self).attempt < final(self).retries),
    {
        self.attempt = self.attempt + 1;
        self.attempt < self.retries
    }
}

/// What a REQUEST's reply comes to: its settings on ACK, `Nak` otherwise.
pub fn request_outcome<E>(mt: MessageType, settings: Settings) -> (r: Result<Settings, Error<E>>)
    ensures
        mt == MessageType::Ack ==> (r matches Ok(s) && s == settings),
        mt != MessageType::Ack ==> r matches Err(Error::Nak),
{
    if mt == MessageType::Ack {
        Ok(settings)
    } else {
        Err(Error::Nak)
    }
}

/// The server and address an OFFER names, where it names both.
pub fn offer_target(settings: &Settings) -> (r: Option<(u32, u32)>)
    ensures
        r == match settings.server_ip {
            Some(s) => Some((s, settings.ip)),
            None => None,
        },
{
    match settings.server_ip {
        Some(s) => Some((s, settings.ip)),
        None => None,
    }
}

} // verus!
