//! The client side of a SOCKS5 negotiation without authentication: how a
//! destination `host:port` is read, the bytes of the greeting and of the
//! CONNECT request, and the steps of the exchange.

use vstd::prelude::*;

verus! {

pub const SOCKS_VERSION: u8 = 5;

pub const CMD_CONNECT: u8 = 1;

pub const ADDR_TYPE_IPV4: u8 = 1;

pub const ADDR_TYPE_DOMAIN: u8 = 3;

/// The method "no authentication".
pub const METHOD_NONE: u8 = 0;

/// The length of the proxy's answer to the greeting.
pub const METHOD_REPLY_LEN: usize = 2;

/// The length of the proxy's answer to a CONNECT request, with an IPv4
/// bound address.
pub const CONNECT_REPLY_LEN: usize = 10;

/// Why a negotiation ended without a connection.
#[derive(Clone, Copy, Debug, PartialEq, Eq, Structural)]
pub enum Socks5Error {
    /// No TCP connection to the proxy.
    UpstreamUnreachable,
    /// The proxy answered the greeting with another version or method.
    HandshakeRejected,
    /// The destination has no `:`.
    MissingPort,
    /// What follows the `:` is no port number.
    InvalidPort,
    /// The host name is longer than 255 bytes.
    AddressTooLong,
    /// A read or write failed, or the proxy sent fewer bytes than asked for.
    Io,
}

/// The host of a destination.
#[derive(Debug, PartialEq, Eq)]
pub enum Host {
    Ipv4(u8, u8, u8, u8),
    Domain(Vec<u8>),
}

/// A destination: host and port.
#[derive(Debug, PartialEq, Eq)]
pub struct Destination {
    pub host: Host,
    pub port: u16,
}

/// A host over plain values.
pub enum HostView {
    Ipv4(u8, u8, u8, u8),
    Domain(Seq<u8>),
}

impl View for Host {
    type V = HostView;

    open spec fn view(&self) -> HostView {
        match self {
            Host::Ipv4(a, b, c, d) => HostView::Ipv4(*a, *b, *c, *d),
            Host::Domain(name) => HostView::Domain(name@),
        }
    }
}

impl View for Destination {
    type V = (HostView, u16);

    open spec fn view(&self) -> (HostView, u16) {
        (self.host@, self.port)
    }
}

pub open spec fn is_digit(b: u8) -> bool {
    0x30 <= b <= 0x39
}

pub open spec fn all_digits(s: Seq<u8>) -> bool {
    forall|i: int| 0 <= i < s.len() ==> is_digit(#[trigger] s[i])
}

/// The number that the decimal digits `s` write.
pub open spec fn decimal_value(s: Seq<u8>) -> nat
    decreases s.len(),
{
    if s.len() == 0 {
        0
    } else {
        decimal_value(s.drop_last()) * 10 + (s.last() - 0x30) as nat
    }
}

/// The index of the first `sep` in `s` at or after `from`, or the length of
/// `s` where there is none.
pub open spec fn field_end(s: Seq<u8>, from: int, sep: u8) -> int
    decreases s.len() - from,
{
    if from < 0 || from >= s.len() {
        s.len() as int
    } else if s[from] == sep {
        from
    } else {
        field_end(s, from + 1, sep)
    }
}

/// A port written in digits alone: at least one, and no more than 65535.
pub open spec fn plain_port_of(s: Seq<u8>) -> Option<u16> {
    if s.len() > 0 && all_digits(s) && decimal_value(s) <= 65535 {
        Some(decimal_value(s) as u16)
    } else {
        None
    }
}

/// A port as the request takes it: digits, which one `+` may precede.
pub open spec fn port_of(s: Seq<u8>) -> Option<u16> {
    if s.len() > 0 && s[0] == 0x2b {
        plain_port_of(s.subrange(1, s.len() as int))
    } else {
        plain_port_of(s)
    }
}

/// One part of a dotted address: one to three digits, no zero in front of
/// another digit, and no more than 255.
pub open spec fn octet_of(s: Seq<u8>) -> Option<u8> {
    if 1 <= s.len() <= 3 && all_digits(s) && (s.len() == 1 || s[0] != 0x30) && decimal_value(s) <= 255 {
        Some(decimal_value(s) as u8)
    } else {
        None
    }
}

/// The four octets of a dotted-decimal IPv4 literal.
pub open spec fn ipv4_of(s: Seq<u8>) -> Option<(u8, u8, u8, u8)> {
    let e1 = field_end(s, 0, 0x2e);
    let e2 = field_end(s, e1 + 1, 0x2e);
    let e3 = field_end(s, e2 + 1, 0x2e);
    let e4 = field_end(s, e3 + 1, 0x2e);
    if e1 < s.len() && e2 < s.len() && e3 < s.len() && e4 == s.len() {
        match (
            octet_of(s.subrange(0, e1)),
            octet_of(s.subrange(e1 + 1, e2)),
            octet_of(s.subrange(e2 + 1, e3)),
            octet_of(s.subrange(e3 + 1, e4)),
        ) {
            (Some(a), Some(b), Some(c), Some(d)) => Some((a, b, c, d)),
            _ => None,
        }
    } else {
        None
    }
}

/// A host as the request names it: an IPv4 literal by its octets, anything
/// else as a domain name.
pub open spec fn host_of(s: Seq<u8>) -> HostView {
    match ipv4_of(s) {
        Some((a, b, c, d)) => HostView::Ipv4(a, b, c, d),
        None => HostView::Domain(s),
    }
}

/// A destination `host:port`. The host ends at the first `:`, the port at
/// the next one or at the end.
pub open spec fn destination_of(s: Seq<u8>) -> Result<(HostView, u16), Socks5Error> {
    let c = field_end(s, 0, 0x3a);
    if c >= s.len() {
        Err(Socks5Error::MissingPort)
    } else {
        match port_of(s.subrange(c + 1, field_end(s, c + 1, 0x3a))) {
            Some(port) => Ok((host_of(s.subrange(0, c)), port)),
            None => Err(Socks5Error::InvalidPort),
        }
    }
}

/// An IPv4 socket address `a.b.c.d:port`, the port in digits alone.
pub open spec fn socket_addr_of(s: Seq<u8>) -> Option<((u8, u8, u8, u8), u16)> {
    let c = field_end(s, 0, 0x3a);
    if c >= s.len() {
        None
    } else {
        match (ipv4_of(s.subrange(0, c)), plain_port_of(s.subrange(c + 1, s.len() as int))) {
            (Some(ip), Some(port)) => Some((ip, port)),
            _ => None,
        }
    }
}

/// The greeting: version 5, one method offered, no authentication.
pub open spec fn greeting_bytes() -> Seq<u8> {
    seq![SOCKS_VERSION, 1u8, METHOD_NONE]
}

/// The proxy accepted the greeting: two bytes, version 5 and method 0.
pub open spec fn method_accepted(reply: Seq<u8>) -> bool {
    reply.len() == 2 && reply[0] == SOCKS_VERSION && reply[1] == METHOD_NONE
}

/// The address part of a CONNECT request: type 1 and four octets, or type 3,
/// a length byte and the name.
pub open spec fn address_bytes(host: HostView) -> Seq<u8> {
    match host {
        HostView::Ipv4(a, b, c, d) => seq![ADDR_TYPE_IPV4, a, b, c, d],
        HostView::Domain(name) => seq![ADDR_TYPE_DOMAIN, name.len() as u8] + name,
    }
}

/// The port, high byte first.
pub open spec fn port_bytes(port: u16) -> Seq<u8> {
    seq![(port / 256) as u8, (port % 256) as u8]
}

/// The CONNECT request for a destination.
pub open spec fn connect_request_bytes(dest: (HostView, u16)) -> Seq<u8> {
    seq![SOCKS_VERSION, CMD_CONNECT, 0u8] + address_bytes(dest.0) + port_bytes(dest.1)
}

/// The host can be named in a request: a domain name fits its length byte.
pub open spec fn encodable(host: HostView) -> bool {
    match host {
        HostView::Ipv4(_, _, _, _) => true,
        HostView::Domain(name) => name.len() <= 255,
    }
}

/// The request for the destination that `s` writes, or why there is none.
pub open spec fn request_for(s: Seq<u8>) -> Result<Seq<u8>, Socks5Error> {
    match destination_of(s) {
        Err(e) => Err(e),
        Ok(dest) => if encodable(dest.0) {
            Ok(connect_request_bytes(dest))
        } else {
            Err(Socks5Error::AddressTooLong)
        },
    }
}

/// The digits of a prefix write no more than the digits of the whole.
pub proof fn lemma_decimal_prefix(s: Seq<u8>, n: int)
    requires
        all_digits(s),
        0 <= n <= s.len(),
    ensures
        decimal_value(s.take(n)) <= decimal_value(s),
    decreases s.len() - n,
{
    if n == s.len() {
        assert(s.take(n) =~= s);
    } else {
        lemma_decimal_prefix(s, n + 1);
        assert(s.take(n + 1).drop_last() =~= s.take(n));
        assert(is_digit(s[n]));
        assert(s.take(n + 1).last() == s[n]);
    }
}

/// Finds the first `sep` at or after `from`.
pub fn find_separator(s: &[u8], from: usize, sep: u8) -> (end: usize)
    ensures
        end == field_end(s@, from as int, sep),
        from <= s@.len() ==> from <= end <= s@.len(),
        from > s@.len() ==> end == s@.len(),
{
    let n = s.len();
    if from >= n {
        return n;
    }
    let mut i: usize = from;
    while i < n && s[i] != sep
        invariant
            n == s@.len(),
            from <= i <= n,
            field_end(s@, from as int, sep) == field_end(s@, i as int, sep),
        decreases n - i,
    {
        i += 1;
    }
    i
}

/// Reads the digits `s[from..to]` as a number no greater than `limit`.
pub fn parse_decimal(s: &[u8], from: usize, to: usize, limit: u32) -> (value: Option<u32>)
    requires
        from <= to <= s@.len(),
        limit <= 100_000_000,
    ensures
        value.is_some() <==> all_digits(s@.subrange(from as int, to as int)) && decimal_value(
            s@.subrange(from as int, to as int),
        ) <= limit,
        value.is_some() ==> value.unwrap() == decimal_value(s@.subrange(from as int, to as int)),
{
    let ghost whole = s@.subrange(from as int, to as int);
    let mut acc: u32 = 0;
    let mut i: usize = from;
    proof {
        assert(whole.take(0) =~= Seq::<u8>::empty());
    }
    while i < to
        invariant
            from <= i <= to <= s@.len(),
            whole == s@.subrange(from as int, to as int),
            limit <= 100_000_000,
            all_digits(whole.take(i - from)),
            acc == decimal_value(whole.take(i - from)),
            acc <= limit,
        decreases to - i,
    {
        let b = s[i];
        proof {
            assert(whole[i - from] == b);
            assert(whole.take(i - from + 1).drop_last() =~= whole.take(i - from));
            assert(whole.take(i - from + 1).last() == b);
        }
        if b < 0x30 || b > 0x39 {
            proof {
                assert(!is_digit(whole[i - from]));
            }
            return None;
        }
        let next: u32 = acc * 10 + (b - 0x30) as u32;
        if next > limit {
            proof {
                if all_digits(whole) {
                    lemma_decimal_prefix(whole, i - from + 1);
                }
            }
            return None;
        }
        proof {
            assert forall|k: int| 0 <= k < whole.take(i - from + 1).len() implies is_digit(
                #[trigger] whole.take(i - from + 1)[k],
            ) by {
                if k < i - from {
                    assert(whole.take(i - from)[k] == whole[k]);
                }
            }
        }
        acc = next;
        i += 1;
    }
    proof {
        assert(whole.take(to - from) =~= whole);
    }
    Some(acc)
}

/// Reads `s[from..to]` as one part of a dotted address.
pub fn parse_octet(s: &[u8], from: usize, to: usize) -> (octet: Option<u8>)
    requires
        from <= to <= s@.len(),
    ensures
        octet == octet_of(s@.subrange(from as int, to as int)),
{
    let len = to - from;
    if len < 1 || len > 3 {
        return None;
    }
    proof {
        assert(s@.subrange(from as int, to as int)[0] == s@[from as int]);
    }
    if len > 1 && s[from] == 0x30 {
        return None;
    }
    match parse_decimal(s, from, to, 255) {
        Some(v) => Some(v as u8),
        None => None,
    }
}

/// Reads a dotted-decimal IPv4 literal: four parts between three dots.
pub fn parse_ipv4(s: &[u8]) -> (ip: Option<(u8, u8, u8, u8)>)
    ensures
        ip == ipv4_of(s@),
{
    let n = s.len();
    let e1 = find_separator(s, 0, 0x2e);
    if e1 >= n {
        return None;
    }
    let e2 = find_separator(s, e1 + 1, 0x2e);
    if e2 >= n {
        return None;
    }
    let e3 = find_separator(s, e2 + 1, 0x2e);
    if e3 >= n {
        return None;
    }
    let e4 = find_separator(s, e3 + 1, 0x2e);
    if e4 != n {
        return None;
    }
    let a = parse_octet(s, 0, e1);
    let b = parse_octet(s, e1 + 1, e2);
    let c = parse_octet(s, e2 + 1, e3);
    let d = parse_octet(s, e3 + 1, e4);
    match (a, b, c, d) {
        (Some(a), Some(b), Some(c), Some(d)) => Some((a, b, c, d)),
        _ => None,
    }
}

/// Reads `s[from..to]` as a port in digits alone.
pub fn parse_plain_port(s: &[u8], from: usize, to: usize) -> (port: Option<u16>)
    requires
        from <= to <= s@.len(),
    ensures
        port == plain_port_of(s@.subrange(from as int, to as int)),
{
    if from == to {
        return None;
    }
    match parse_decimal(s, from, to, 65535) {
        Some(v) => Some(v as u16),
        None => None,
    }
}

/// Reads `s[from..to]` as a port, which one `+` may precede.
pub fn parse_port(s: &[u8], from: usize, to: usize) -> (port: Option<u16>)
    requires
        from <= to <= s@.len(),
    ensures
        port == port_of(s@.subrange(from as int, to as int)),
{
    if from < to && s[from] == 0x2b {
        proof {
            let part = s@.subrange(from as int, to as int);
            assert(part[0] == s@[from as int]);
            assert(part.subrange(1, part.len() as int) =~= s@.subrange(from + 1, to as int));
        }
        parse_plain_port(s, from + 1, to)
    } else {
        proof {
            if from < to {
                assert(s@.subrange(from as int, to as int)[0] == s@[from as int]);
            }
        }
        parse_plain_port(s, from, to)
    }
}

/// Reads a host: an IPv4 literal, or else a domain name.
pub fn parse_host(s: &[u8]) -> (host: Host)
    ensures
        host@ == host_of(s@),
{
    match parse_ipv4(s) {
        Some((a, b, c, d)) => Host::Ipv4(a, b, c, d),
        None => Host::Domain(vstd::slice::slice_to_vec(s)),
    }
}

/// Reads a destination `host:port`.
pub fn parse_destination(s: &[u8]) -> (dest: Result<Destination, Socks5Error>)
    ensures
        match dest {
            Ok(d) => destination_of(s@) == Ok::<(HostView, u16), Socks5Error>(d@),
            Err(e) => destination_of(s@) == Err::<(HostView, u16), Socks5Error>(e),
        },
{
    let n = s.len();
    let c = find_separator(s, 0, 0x3a);
    if c >= n {
        return Err(Socks5Error::MissingPort);
    }
    let end = find_separator(s, c + 1, 0x3a);
    match parse_port(s, c + 1, end) {
        None => Err(Socks5Error::InvalidPort),
        Some(port) => {
            let host = parse_host(vstd::slice::slice_subrange(s, 0, c));
            Ok(Destination { host, port })
        },
    }
}

/// Reads an IPv4 socket address `a.b.c.d:port`.
pub fn parse_socket_addr(s: &[u8]) -> (addr: Option<((u8, u8, u8, u8), u16)>)
    ensures
        addr == socket_addr_of(s@),
{
    let n = s.len();
    let c = find_separator(s, 0, 0x3a);
    if c >= n {
        return None;
    }
    let ip = parse_ipv4(vstd::slice::slice_subrange(s, 0, c));
    let port = parse_plain_port(s, c + 1, n);
    match (ip, port) {
        (Some(ip), Some(port)) => Some((ip, port)),
        _ => None,
    }
}

/// Appends `src` to `out`.
pub fn append_bytes(out: &mut Vec<u8>, src: &[u8])
    ensures
        final(out)@ == old(out)@ + src@,
{
    let n = src.len();
    let mut i: usize = 0;
    proof {
        assert(src@.take(0) =~= Seq::<u8>::empty());
        assert(out@ + src@.take(0) =~= out@);
    }
    while i < n
        invariant
            n == src@.len(),
            i <= n,
            out@ == old(out)@ + src@.take(i as int),
        decreases n - i,
    {
        proof {
            assert(src@.take(i + 1) =~= src@.take(i as int).push(src@[i as int]));
            assert((old(out)@ + src@.take(i as int)).push(src@[i as int]) =~= old(out)@ + src@.take(i + 1));
        }
        out.push(src[i]);
        i += 1;
    }
    proof {
        assert(src@.take(n as int) =~= src@);
    }
}

/// The greeting that opens a negotiation.
pub fn greeting() -> (bytes: Vec<u8>)
    ensures
        bytes@ == greeting_bytes(),
{
    let mut bytes: Vec<u8> = Vec::new();
    bytes.push(SOCKS_VERSION);
    bytes.push(1);
    bytes.push(METHOD_NONE);
    proof {
        assert(bytes@ =~= greeting_bytes());
    }
    bytes
}

/// Whether the proxy's answer to the greeting accepts it.
pub fn check_method_reply(reply: &[u8]) -> (ok: bool)
    ensures
        ok == method_accepted(reply@),
{
    reply.len() == 2 && reply[0] == SOCKS_VERSION && reply[1] == METHOD_NONE
}

/// Writes the CONNECT request for `dest`. A domain name of more than 255
/// bytes has no request.
pub fn encode_connect_request(dest: &Destination) -> (request: Result<Vec<u8>, Socks5Error>)
    ensures
        match request {
            Ok(bytes) => encodable(dest@.0) && bytes@ == connect_request_bytes(dest@),
            Err(e) => !encodable(dest@.0) && e == Socks5Error::AddressTooLong,
        },
{
    let mut bytes: Vec<u8> = Vec::new();
    bytes.push(SOCKS_VERSION);
    bytes.push(CMD_CONNECT);
    bytes.push(0);
    let ghost head = bytes@;
    match &dest.host {
        Host::Ipv4(a, b, c, d) => {
            bytes.push(ADDR_TYPE_IPV4);
            bytes.push(*a);
            bytes.push(*b);
            bytes.push(*c);
            bytes.push(*d);
            proof {
                assert(bytes@ =~= head + address_bytes(dest@.0));
            }
        },
        Host::Domain(name) => {
            if name.len() > 255 {
                return Err(Socks5Error::AddressTooLong);
            }
            bytes.push(ADDR_TYPE_DOMAIN);
            bytes.push(name.len() as u8);
            append_bytes(&mut bytes, name.as_slice());
            proof {
                assert(bytes@ =~= head + address_bytes(dest@.0));
            }
        },
    }
    let ghost middle = bytes@;
    bytes.push((dest.port / 256) as u8);
    bytes.push((dest.port % 256) as u8);
    proof {
        assert(head =~= seq![SOCKS_VERSION, CMD_CONNECT, 0u8]);
        assert(bytes@ =~= middle + port_bytes(dest.port));
    }
    Ok(bytes)
}

/// Writes the CONNECT request for the destination `host:port` in `dest`.
pub fn build_connect_request(dest: &[u8]) -> (request: Result<Vec<u8>, Socks5Error>)
    ensures
        match request {
            Ok(bytes) => request_for(dest@) == Ok::<Seq<u8>, Socks5Error>(bytes@),
            Err(e) => request_for(dest@) == Err::<Seq<u8>, Socks5Error>(e),
        },
{
    match parse_destination(dest) {
        Err(e) => Err(e),
        Ok(d) => encode_connect_request(&d),
    }
}

/// Where a negotiation stands.
#[derive(Clone, Copy, Debug, PartialEq, Eq, Structural)]
pub enum HandshakeState {
    /// The TCP connection to the proxy is being opened.
    Connecting,
    /// The greeting is sent; the method reply is awaited.
    Greeted,
    /// The CONNECT request is sent; its reply is awaited.
    Requested,
    /// The connection is ready for the relay.
    Established,
    /// The negotiation has failed.
    Failed,
}

/// What happened since the last step.
#[derive(Debug, PartialEq, Eq)]
pub enum HandshakeEvent {
    /// The TCP connection to the proxy is open.
    Connected,
    /// The TCP connection to the proxy could not be opened.
    ConnectFailed,
    /// The bytes asked for were sent, and these were read.
    Received(Vec<u8>),
    /// A write or a read failed, or the stream ended early.
    IoFailed,
}

/// What to do next.
#[derive(Debug, PartialEq, Eq)]
pub enum HandshakeAction {
    /// Send `send`, then read exactly `expect` bytes.
    Exchange { send: Vec<u8>, expect: usize },
    /// Hand the connection to the relay.
    Finish,
    /// Drop the connection.
    Abort(Socks5Error),
}

pub enum EventView {
    Connected,
    ConnectFailed,
    Received(Seq<u8>),
    IoFailed,
}

pub enum ActionView {
    Exchange { send: Seq<u8>, expect: int },
    Finish,
    Abort(Socks5Error),
}

impl View for HandshakeEvent {
    type V = EventView;

    open spec fn view(&self) -> EventView {
        match self {
            HandshakeEvent::Connected => EventView::Connected,
            HandshakeEvent::ConnectFailed => EventView::ConnectFailed,
            HandshakeEvent::Received(bytes) => EventView::Received(bytes@),
            HandshakeEvent::IoFailed => EventView::IoFailed,
        }
    }
}

impl View for HandshakeAction {
    type V = ActionView;

    open spec fn view(&self) -> ActionView {
        match self {
            HandshakeAction::Exchange { send, expect } => ActionView::Exchange {
                send: send@,
                expect: *expect as int,
            },
            HandshakeAction::Finish => ActionView::Finish,
            HandshakeAction::Abort(e) => ActionView::Abort(*e),
        }
    }
}

pub open spec fn failure(e: Socks5Error) -> (HandshakeState, ActionView) {
    (HandshakeState::Failed, ActionView::Abort(e))
}

/// One step of the negotiation with the destination `dest`: the state and
/// the action that follow `event` in `state`.
///
/// Once connected, the greeting goes out. An accepted method reply is
/// followed by the CONNECT request, whose ten reply bytes end the
/// negotiation whatever they hold. Anything else fails it.
pub open spec fn next_step(state: HandshakeState, event: EventView, dest: Seq<u8>) -> (
    HandshakeState,
    ActionView,
) {
    match (state, event) {
        (HandshakeState::Connecting, EventView::Connected) => (
            HandshakeState::Greeted,
            ActionView::Exchange { send: greeting_bytes(), expect: METHOD_REPLY_LEN as int },
        ),
        (HandshakeState::Connecting, EventView::Received(_)) => failure(Socks5Error::Io),
        (HandshakeState::Connecting, _) => failure(Socks5Error::UpstreamUnreachable),
        (HandshakeState::Greeted, EventView::Received(reply)) => if reply.len() != METHOD_REPLY_LEN {
            failure(Socks5Error::Io)
        } else if !method_accepted(reply) {
            failure(Socks5Error::HandshakeRejected)
        } else {
            match request_for(dest) {
                Ok(request) => (
                    HandshakeState::Requested,
                    ActionView::Exchange { send: request, expect: CONNECT_REPLY_LEN as int },
                ),
                Err(e) => failure(e),
            }
        },
        (HandshakeState::Requested, EventView::Received(reply)) => if reply.len() == CONNECT_REPLY_LEN {
            (HandshakeState::Established, ActionView::Finish)
        } else {
            failure(Socks5Error::Io)
        },
        (HandshakeState::Established, _) => (HandshakeState::Established, ActionView::Finish),
        _ => failure(Socks5Error::Io),
    }
}

/// Takes one step of the negotiation.
pub fn handshake_step(state: HandshakeState, event: &HandshakeEvent, dest: &[u8]) -> (step: (
    HandshakeState,
    HandshakeAction,
))
    ensures
        (step.0, step.1@) == next_step(state, event@, dest@),
{
    match state {
        HandshakeState::Connecting => match event {
            HandshakeEvent::Connected => (
                HandshakeState::Greeted,
                HandshakeAction::Exchange { send: greeting(), expect: METHOD_REPLY_LEN },
            ),
            HandshakeEvent::Received(_) => (HandshakeState::Failed, HandshakeAction::Abort(Socks5Error::Io)),
            _ => (HandshakeState::Failed, HandshakeAction::Abort(Socks5Error::UpstreamUnreachable)),
        },
        HandshakeState::Greeted => match event {
            HandshakeEvent::Received(reply) => {
                if reply.len() != METHOD_REPLY_LEN {
                    (HandshakeState::Failed, HandshakeAction::Abort(Socks5Error::Io))
                } else if !check_method_reply(reply.as_slice()) {
                    (HandshakeState::Failed, HandshakeAction::Abort(Socks5Error::HandshakeRejected))
                } else {
                    match build_connect_request(dest) {
                        Ok(request) => (
                            HandshakeState::Requested,
                            HandshakeAction::Exchange { send: request, expect: CONNECT_REPLY_LEN },
                        ),
                        Err(e) => (HandshakeState::Failed, HandshakeAction::Abort(e)),
                    }
                }
            },
            _ => (HandshakeState::Failed, HandshakeAction::Abort(Socks5Error::Io)),
        },
        HandshakeState::Requested => match event {
            HandshakeEvent::Received(reply) => {
                if reply.len() == CONNECT_REPLY_LEN {
                    (HandshakeState::Established, HandshakeAction::Finish)
                } else {
                    (HandshakeState::Failed, HandshakeAction::Abort(Socks5Error::Io))
                }
            },
            _ => (HandshakeState::Failed, HandshakeAction::Abort(Socks5Error::Io)),
        },
        HandshakeState::Established => (HandshakeState::Established, HandshakeAction::Finish),
        HandshakeState::Failed => (HandshakeState::Failed, HandshakeAction::Abort(Socks5Error::Io)),
    }
}

} // verus!
