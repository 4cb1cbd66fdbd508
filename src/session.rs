//! The life of one client connection, as decisions from events to actions.
//! The caller performs each action and reports what came of it.

use vstd::prelude::*;
use vstd::slice::slice_to_vec;
use vstd::utf8::decode_utf8;
use crate::engine::{FragmentPlan, SocketOp, hello_ops, ops_model, plan_hello};
use crate::http_head::{head_of, parse_http_head};
use crate::sni::location_of;

verus! {

/// Where a session stands.
#[derive(Clone, Copy, Debug, PartialEq, Eq, Structural)]
pub enum Phase {
    /// Waiting for the request line.
    Reading,
    /// Waiting for the address of the requested host.
    Resolving,
    /// Waiting for the upstream connection to open.
    Connecting,
    /// Waiting for the first bytes of the client after the success reply.
    Splicing,
    /// Copying bytes both ways.
    Relaying,
    /// Ended without a fault.
    Closed,
    /// Ended on a fault.
    Failed,
}

/// What the caller observed.
#[derive(Debug)]
pub enum Event {
    /// The first read from the client gave these bytes.
    Received(Vec<u8>),
    /// The resolver answered with this IPv4 address, or with none.
    Resolved(Option<[u8; 4]>),
    /// The upstream connection is open.
    Connected,
    /// The success reply went out, then the client sent these bytes; the
    /// upstream socket's time-to-live is `ttl`.
    HelloRead(Vec<u8>, u32),
    /// The relay ended, from either side.
    RelayEnded,
    /// A socket operation, a connect or the resolver queue failed.
    IoError,
}

/// What the caller is to do next.
#[derive(Debug)]
pub enum Action {
    /// Look up the IPv4 address of this host name.
    Resolve(String),
    /// Open a TCP connection to this address and port.
    Connect([u8; 4], u16),
    /// Write these bytes to the client, then read its next bytes.
    Reply(Vec<u8>),
    /// Perform these steps on the upstream socket, then relay.
    Transmit(Vec<SocketOp>),
    /// Close both sockets.
    Close,
}

/// One connection's state: its phase, and what was read from the request.
#[derive(Debug)]
pub struct Session {
    pub phase: Phase,
    pub port: u16,
    pub method: Vec<u8>,
}

/// Whether an IPv4 address lies in 127.0.0.0/8.
pub open spec fn loopback(ip: [u8; 4]) -> bool {
    ip@[0] == 127
}

/// `" 200 Connection Established\r\n\r\n"` in ASCII.
pub open spec fn established_suffix() -> Seq<u8> {
    seq![
        32u8, 50u8, 48u8, 48u8, 32u8, 67u8, 111u8, 110u8, 110u8, 101u8, 99u8, 116u8, 105u8,
        111u8, 110u8, 32u8, 69u8, 115u8, 116u8, 97u8, 98u8, 108u8, 105u8, 115u8, 104u8, 101u8,
        100u8, 13u8, 10u8, 13u8, 10u8,
    ]
}

/// `"HTTP/1.1 200 OK\r\nConnection: close\r\n\r\n"` in ASCII.
pub open spec fn close_notice_bytes() -> Seq<u8> {
    seq![
        72u8, 84u8, 84u8, 80u8, 47u8, 49u8, 46u8, 49u8, 32u8, 50u8, 48u8, 48u8, 32u8, 79u8,
        75u8, 13u8, 10u8, 67u8, 111u8, 110u8, 110u8, 101u8, 99u8, 116u8, 105u8, 111u8, 110u8,
        58u8, 32u8, 99u8, 108u8, 111u8, 115u8, 101u8, 13u8, 10u8, 13u8, 10u8,
    ]
}

/// Whether an IPv4 address lies in 127.0.0.0/8, as `Ipv4Addr::is_loopback` has it.
pub fn is_loopback(ip: [u8; 4]) -> (r: bool)
    ensures
        r == loopback(ip),
{
    ip[0] == 127
}

/// The notice written to the client when a session ends, whatever its end.
pub fn close_notice() -> (r: Vec<u8>)
    ensures
        r@ == close_notice_bytes(),
{
    let r = vec![
        72u8, 84, 84, 80, 47, 49, 46, 49, 32, 50, 48, 48, 32, 79, 75, 13, 10, 67, 111, 110, 110,
        101, 99, 116, 105, 111, 110, 58, 32, 99, 108, 111, 115, 101, 13, 10, 13, 10,
    ];
    assert(r@ =~= close_notice_bytes());
    r
}

/// The reply to a CONNECT whose upstream opened: the client's version token,
/// then `" 200 Connection Established\r\n\r\n"`.
pub fn established_reply(method: &[u8]) -> (r: Vec<u8>)
    ensures
        r@ == method@ + established_suffix(),
{
    let mut r = slice_to_vec(method);
    let suffix = vec![
        32u8, 50, 48, 48, 32, 67, 111, 110, 110, 101, 99, 116, 105, 111, 110, 32, 69, 115, 116, 97,
        98, 108, 105, 115, 104, 101, 100, 13, 10, 13, 10,
    ];
    assert(suffix@ =~= established_suffix());
    r.extend_from_slice(suffix.as_slice());
    assert(r@ =~= method@ + established_suffix());
    r
}

/// Whether the outcome of a session is a fault to be reported; a fault
/// ends that session only.
pub fn error_handling<E>(x: &Result<(), E>) -> (report: bool)
    ensures
        report <==> x is Err,
{
    x.is_err()
}

/// Whether a phase is an end.
pub open spec fn terminal(p: Phase) -> bool {
    p == Phase::Closed || p == Phase::Failed
}

impl Session {
    /// A session that has accepted a socket and waits for its request line.
    pub fn new() -> (s: Session)
        ensures
            s.phase == Phase::Reading,
    {
        Session { phase: Phase::Reading, port: 0, method: Vec::new() }
    }

    /// Takes one event and gives the action that follows it.
    ///
    /// - Reading: an empty read closes; a request line that does not parse
    ///   fails; one that does asks for the host's address.
    /// - Resolving: no address, or a loopback one, fails before any connect;
    ///   another address is connected to at the requested port.
    /// - Connecting: the success reply is written.
    /// - Splicing: the hello is sent as `plan` cuts it.
    /// - Relaying: the end of the relay closes.
    /// - An I/O fault, or an event that the phase does not wait for, fails.
    ///   An ended session stays as it is and closes.
    pub fn step(&mut self, event: Event, plan: &FragmentPlan) -> (a: Action)
        ensures
            terminal(old(self).phase) ==> final(self).phase == old(self).phase && a is Close,
            !terminal(old(self).phase) && event is IoError ==> final(self).phase == Phase::Failed
                && a is Close,
            old(self).phase == Phase::Reading ==> match event {
                Event::Received(bytes) => if bytes@.len() == 0 {
                    final(self).phase == Phase::Closed && a is Close
                } else {
                    match head_of(bytes@) {
                        Ok(m) => final(self).phase == Phase::Resolving && final(self).port
                            == m.port && final(self).method@ == m.method && (a matches Action::Resolve(
                            d,
                        ) && d@ == decode_utf8(m.domain)),
                        Err(_) => final(self).phase == Phase::Failed && a is Close,
                    }
                },
                Event::IoError => true,
                _ => final(self).phase == Phase::Failed && a is Close,
            },
            old(self).phase == Phase::Resolving ==> match event {
                Event::Resolved(Some(ip)) => if loopback(ip) {
                    final(self).phase == Phase::Failed && a is Close
                } else {
                    final(self).phase == Phase::Connecting && a == Action::Connect(ip, old(self).port)
                },
                Event::IoError => true,
                _ => final(self).phase == Phase::Failed && a is Close,
            },
            old(self).phase == Phase::Connecting ==> match event {
                Event::Connected => final(self).phase == Phase::Splicing && (a matches Action::Reply(
                    r,
                ) && r@ == old(self).method@ + established_suffix()),
                Event::IoError => true,
                _ => final(self).phase == Phase::Failed && a is Close,
            },
            old(self).phase == Phase::Splicing ==> match event {
                Event::HelloRead(hello, ttl) => final(self).phase == Phase::Relaying && (a matches Action::Transmit(
                    ops,
                ) && ops_model(ops@) == hello_ops(hello@, *plan, ttl, location_of(hello@))),
                Event::IoError => true,
                _ => final(self).phase == Phase::Failed && a is Close,
            },
            old(self).phase == Phase::Relaying ==> match event {
                Event::RelayEnded => final(self).phase == Phase::Closed && a is Close,
                Event::IoError => true,
                _ => final(self).phase == Phase::Failed && a is Close,
            },
            final(self).port == old(self).port || old(self).phase == Phase::Reading,
            a matches Action::Connect(ip, port) ==> old(self).phase == Phase::Resolving && event
                == Event::Resolved(Some(ip)) && !loopback(ip) && port == old(self).port,
    {
        if self.phase == Phase::Closed || self.phase == Phase::Failed {
            return Action::Close;
        }
        match event {
            Event::IoError => {
                self.phase = Phase::Failed;
                Action::Close
            },
            Event::Received(bytes) => {
                if self.phase != Phase::Reading {
                    self.phase = Phase::Failed;
                    return Action::Close;
                }
                if bytes.len() == 0 {
                    self.phase = Phase::Closed;
                    return Action::Close;
                }
                match parse_http_head(bytes.as_slice()) {
                    Ok(h) => {
                        self.phase = Phase::Resolving;
                        self.port = h.port;
                        self.method = h.method;
                        Action::Resolve(h.domain)
                    },
                    Err(_) => {
                        self.phase = Phase::Failed;
                        Action::Close
                    },
                }
            },
            Event::Resolved(addr) => {
                if self.phase != Phase::Resolving {
                    self.phase = Phase::Failed;
                    return Action::Close;
                }
                match addr {
                    Some(ip) => if is_loopback(ip) {
                        self.phase = Phase::Failed;
                        Action::Close
                    } else {
                        self.phase = Phase::Connecting;
                        Action::Connect(ip, self.port)
                    },
                    None => {
                        self.phase = Phase::Failed;
                        Action::Close
                    },
                }
            },
            Event::Connected => {
                if self.phase != Phase::Connecting {
                    self.phase = Phase::Failed;
                    return Action::Close;
                }
                self.phase = Phase::Splicing;
                Action::Reply(established_reply(self.method.as_slice()))
            },
            Event::HelloRead(hello, ttl) => {
                if self.phase != Phase::Splicing {
                    self.phase = Phase::Failed;
                    return Action::Close;
                }
                self.phase = Phase::Relaying;
                Action::Transmit(plan_hello(hello.as_slice(), plan, ttl))
            },
            Event::RelayEnded => {
                if self.phase != Phase::Relaying {
                    self.phase = Phase::Failed;
                    return Action::Close;
                }
                self.phase = Phase::Closed;
                Action::Close
            },
        }
    }
}

} // verus!
