//! IPv4 addresses as numbers and as text.

use crate::socks5::{
    all_digits, decimal_value, destination_of, field_end, host_of, ipv4_of, is_digit, octet_of, plain_port_of,
    port_of, request_for, socket_addr_of, HostView, Socks5Error,
};
use vstd::prelude::*;

verus! {

/// The number of an address: its first octet is the highest byte.
pub open spec fn ipv4_number(ip: (u8, u8, u8, u8)) -> int {
    ip.0 * 16_777_216 + ip.1 * 65_536 + ip.2 * 256 + ip.3
}

/// The octets of a number, highest byte first.
pub open spec fn ipv4_octets(n: u32) -> (u8, u8, u8, u8) {
    ((n / 16_777_216) as u8, (n / 65_536 % 256) as u8, (n / 256 % 256) as u8, (n % 256) as u8)
}

/// The decimal digits of `n`, without a zero in front.
pub open spec fn decimal_digits(n: nat) -> Seq<u8>
    decreases n,
{
    if n < 10 {
        seq![(0x30 + n) as u8]
    } else {
        decimal_digits(n / 10).push((0x30 + n % 10) as u8)
    }
}

/// An address as `a.b.c.d`.
pub open spec fn ipv4_text(ip: (u8, u8, u8, u8)) -> Seq<u8> {
    decimal_digits(ip.0 as nat) + seq![0x2eu8] + decimal_digits(ip.1 as nat) + seq![0x2eu8] + decimal_digits(
        ip.2 as nat,
    ) + seq![0x2eu8] + decimal_digits(ip.3 as nat)
}

/// An address and a port as `a.b.c.d:port`.
pub open spec fn socket_addr_text(ip: (u8, u8, u8, u8), port: u16) -> Seq<u8> {
    ipv4_text(ip) + seq![0x3au8] + decimal_digits(port as nat)
}

/// A byte as it is shown: itself where it is a visible ASCII character or a
/// space, a dot otherwise.
pub open spec fn shown_byte(b: u8) -> u8 {
    if 0x20 <= b <= 0x7e {
        b
    } else {
        0x2e
    }
}

/// An address as a number.
pub fn ipv4_to_number(ip: (u8, u8, u8, u8)) -> (n: u32)
    ensures
        n == ipv4_number(ip),
        ipv4_octets(n) == ip,
{
    let a: u32 = ip.0 as u32;
    let b: u32 = ip.1 as u32;
    let c: u32 = ip.2 as u32;
    let d: u32 = ip.3 as u32;
    let n: u32 = a * 16_777_216 + b * 65_536 + c * 256 + d;
    proof {
        assert(n / 16_777_216 == a);
        assert(n / 65_536 == a * 256 + b);
        assert(n / 256 == a * 65_536 + b * 256 + c);
        assert((a * 256 + b) % 256 == b);
        assert((a * 65_536 + b * 256 + c) % 256 == c);
        assert(n % 256 == d);
    }
    n
}

/// A number as an address.
pub fn number_to_ipv4(n: u32) -> (ip: (u8, u8, u8, u8))
    ensures
        ip == ipv4_octets(n),
        ipv4_number(ip) == n,
{
    ((n / 16_777_216) as u8, (n / 65_536 % 256) as u8, (n / 256 % 256) as u8, (n % 256) as u8)
}

/// Appends the decimal digits of `n` to `out`.
pub fn push_decimal(out: &mut Vec<u8>, n: u16)
    ensures
        final(out)@ == old(out)@ + decimal_digits(n as nat),
    decreases n,
{
    if n >= 10 {
        push_decimal(out, n / 10);
    }
    let ghost before = out@;
    out.push(0x30 + (n % 10) as u8);
    proof {
        if n >= 10 {
            assert(before.push((0x30 + n % 10) as u8) =~= old(out)@ + decimal_digits(n as nat));
        } else {
            assert(before.push((0x30 + n) as u8) =~= old(out)@ + decimal_digits(n as nat));
        }
    }
}

/// Writes an address and a port as `a.b.c.d:port`.
pub fn format_socket_addr(ip: (u8, u8, u8, u8), port: u16) -> (text: Vec<u8>)
    ensures
        text@ == socket_addr_text(ip, port),
{
    let mut text: Vec<u8> = Vec::new();
    proof {
        assert(text@ + decimal_digits(ip.0 as nat) =~= decimal_digits(ip.0 as nat));
    }
    push_decimal(&mut text, ip.0 as u16);
    text.push(0x2e);
    push_decimal(&mut text, ip.1 as u16);
    text.push(0x2e);
    push_decimal(&mut text, ip.2 as u16);
    text.push(0x2e);
    push_decimal(&mut text, ip.3 as u16);
    text.push(0x3a);
    push_decimal(&mut text, port);
    proof {
        assert(text@ =~= socket_addr_text(ip, port));
    }
    text
}

/// The bytes of `data` as they are shown: what is neither a visible ASCII
/// character nor a space becomes a dot.
pub fn printable(data: &[u8]) -> (shown: Vec<u8>)
    ensures
        shown@.len() == data@.len(),
        forall|i: int| 0 <= i < data@.len() ==> shown@[i] == shown_byte(#[trigger] data@[i]),
{
    let n = data.len();
    let mut shown: Vec<u8> = Vec::new();
    let mut i: usize = 0;
    while i < n
        invariant
            n == data@.len(),
            i <= n,
            shown@.len() == i,
            forall|j: int| 0 <= j < i ==> shown@[j] == shown_byte(#[trigger] data@[j]),
        decreases n - i,
    {
        let b = data[i];
        if 0x20 <= b && b <= 0x7e {
            shown.push(b);
        } else {
            shown.push(0x2e);
        }
        i += 1;
    }
    shown
}

/// No byte of `s` is `sep`.
pub open spec fn excludes(s: Seq<u8>, sep: u8) -> bool {
    forall|k: int| 0 <= k < s.len() ==> #[trigger] s[k] != sep
}

/// The digits of a number are digits, at least one and none too many, with
/// no zero in front, and they write that number.
pub proof fn lemma_decimal_digits(n: nat)
    ensures
        decimal_digits(n).len() >= 1,
        all_digits(decimal_digits(n)),
        decimal_value(decimal_digits(n)) == n,
        n > 0 ==> decimal_digits(n)[0] != 0x30,
        n < 10 ==> decimal_digits(n).len() == 1,
        n < 100 ==> decimal_digits(n).len() <= 2,
        n < 1000 ==> decimal_digits(n).len() <= 3,
    decreases n,
{
    let d = decimal_digits(n);
    if n < 10 {
        assert(d.drop_last() =~= Seq::<u8>::empty());
        assert(decimal_value(d.drop_last()) == 0);
    } else {
        let head = decimal_digits(n / 10);
        lemma_decimal_digits(n / 10);
        assert(d.drop_last() =~= head);
        assert(d[0] == head[0]);
        assert forall|i: int| 0 <= i < d.len() implies is_digit(#[trigger] d[i]) by {
            if i < head.len() {
                assert(d[i] == head[i]);
            }
        }
    }
}

/// A field that starts at `from` ends at the first separator behind it.
pub proof fn lemma_field_end(s: Seq<u8>, from: int, end: int, sep: u8)
    requires
        0 <= from <= end <= s.len(),
        forall|k: int| from <= k < end ==> #[trigger] s[k] != sep,
        end == s.len() || s[end] == sep,
    ensures
        field_end(s, from, sep) == end,
    decreases end - from,
{
    if from < end {
        lemma_field_end(s, from + 1, end, sep);
    }
}

/// Between `pre` and a `post` that is empty or starts with the separator,
/// a field without separator is found whole.
pub proof fn lemma_field_in_concat(pre: Seq<u8>, d: Seq<u8>, post: Seq<u8>, sep: u8)
    requires
        excludes(d, sep),
        post.len() == 0 || post[0] == sep,
    ensures
        field_end(pre + d + post, pre.len() as int, sep) == pre.len() + d.len(),
        (pre + d + post).subrange(pre.len() as int, (pre.len() + d.len()) as int) == d,
{
    let s = pre + d + post;
    assert forall|k: int| pre.len() <= k < pre.len() + d.len() implies #[trigger] s[k] != sep by {
        assert(s[k] == d[k - pre.len()]);
    }
    if post.len() > 0 {
        assert(s[(pre.len() + d.len()) as int] == post[0]);
    }
    lemma_field_end(s, pre.len() as int, (pre.len() + d.len()) as int, sep);
    assert(s.subrange(pre.len() as int, (pre.len() + d.len()) as int) =~= d);
}

/// Digits hold no byte that is no digit.
pub proof fn lemma_digits_exclude(d: Seq<u8>, sep: u8)
    requires
        all_digits(d),
        !is_digit(sep),
    ensures
        excludes(d, sep),
{
    assert forall|k: int| 0 <= k < d.len() implies #[trigger] d[k] != sep by {
        assert(is_digit(d[k]));
    }
}

/// What two texts lack, their concatenation lacks.
pub proof fn lemma_concat_excludes(x: Seq<u8>, y: Seq<u8>, sep: u8)
    requires
        excludes(x, sep),
        excludes(y, sep),
    ensures
        excludes(x + y, sep),
{
    assert forall|k: int| 0 <= k < (x + y).len() implies #[trigger] (x + y)[k] != sep by {
        if k < x.len() {
            assert((x + y)[k] == x[k]);
        } else {
            assert((x + y)[k] == y[k - x.len()]);
        }
    }
}

/// The digits of an octet read back as that octet.
pub proof fn lemma_octet_round_trip(a: u8)
    ensures
        octet_of(decimal_digits(a as nat)) == Some(a),
        excludes(decimal_digits(a as nat), 0x2e),
        excludes(decimal_digits(a as nat), 0x3a),
{
    lemma_decimal_digits(a as nat);
    lemma_digits_exclude(decimal_digits(a as nat), 0x2e);
    lemma_digits_exclude(decimal_digits(a as nat), 0x3a);
}

/// The dotted text of an address reads back as that address, and holds no
/// colon.
pub proof fn lemma_ipv4_round_trip(ip: (u8, u8, u8, u8))
    ensures
        ipv4_of(ipv4_text(ip)) == Some(ip),
        excludes(ipv4_text(ip), 0x3a),
{
    let dot = seq![0x2eu8];
    let none = Seq::<u8>::empty();
    let da = decimal_digits(ip.0 as nat);
    let db = decimal_digits(ip.1 as nat);
    let dc = decimal_digits(ip.2 as nat);
    let dd = decimal_digits(ip.3 as nat);
    let host = ipv4_text(ip);
    lemma_octet_round_trip(ip.0);
    lemma_octet_round_trip(ip.1);
    lemma_octet_round_trip(ip.2);
    lemma_octet_round_trip(ip.3);
    lemma_decimal_digits(ip.0 as nat);
    lemma_decimal_digits(ip.1 as nat);
    lemma_decimal_digits(ip.2 as nat);
    lemma_decimal_digits(ip.3 as nat);
    assert(excludes(dot, 0x3a));
    lemma_concat_excludes(da, dot, 0x3a);
    lemma_concat_excludes(da + dot, db, 0x3a);
    lemma_concat_excludes(da + dot + db, dot, 0x3a);
    lemma_concat_excludes(da + dot + db + dot, dc, 0x3a);
    lemma_concat_excludes(da + dot + db + dot + dc, dot, 0x3a);
    lemma_concat_excludes(da + dot + db + dot + dc + dot, dd, 0x3a);

    let post1 = dot + db + dot + dc + dot + dd;
    assert(host =~= none + da + post1);
    lemma_field_in_concat(none, da, post1, 0x2e);
    let e1 = da.len() as int;
    assert(field_end(host, 0, 0x2e) == e1);

    let pre2 = da + dot;
    let post2 = dot + dc + dot + dd;
    assert(host =~= pre2 + db + post2);
    lemma_field_in_concat(pre2, db, post2, 0x2e);
    let e2 = e1 + 1 + db.len();
    assert(field_end(host, e1 + 1, 0x2e) == e2);

    let pre3 = da + dot + db + dot;
    let post3 = dot + dd;
    assert(host =~= pre3 + dc + post3);
    lemma_field_in_concat(pre3, dc, post3, 0x2e);
    let e3 = e2 + 1 + dc.len();
    assert(field_end(host, e2 + 1, 0x2e) == e3);

    let pre4 = da + dot + db + dot + dc + dot;
    assert(host =~= pre4 + dd + none);
    lemma_field_in_concat(pre4, dd, none, 0x2e);
    let e4 = e3 + 1 + dd.len();
    assert(field_end(host, e3 + 1, 0x2e) == e4);
    assert(e4 == host.len());

    assert(host.subrange(0, e1) == da);
    assert(host.subrange(e1 + 1, e2) == db);
    assert(host.subrange(e2 + 1, e3) == dc);
    assert(host.subrange(e3 + 1, e4) == dd);
}

/// What the resolver writes, the library reads back: the text of an address
/// and a port is a socket address with that address and port, and a
/// destination whose host is that IPv4 address.
pub proof fn lemma_socket_addr_round_trip(ip: (u8, u8, u8, u8), port: u16)
    ensures
        socket_addr_of(socket_addr_text(ip, port)) == Some((ip, port)),
        destination_of(socket_addr_text(ip, port)) == Ok::<(HostView, u16), Socks5Error>(
            (HostView::Ipv4(ip.0, ip.1, ip.2, ip.3), port),
        ),
{
    let colon = seq![0x3au8];
    let none = Seq::<u8>::empty();
    let host = ipv4_text(ip);
    let dp = decimal_digits(port as nat);
    let text = socket_addr_text(ip, port);
    lemma_ipv4_round_trip(ip);
    lemma_decimal_digits(port as nat);
    lemma_digits_exclude(dp, 0x3a);
    assert(text =~= host + colon + dp);

    let post = colon + dp;
    assert(text =~= none + host + post);
    lemma_field_in_concat(none, host, post, 0x3a);
    let c = host.len() as int;
    assert(field_end(text, 0, 0x3a) == c);
    assert(text.subrange(0, c) == host);

    let pre = host + colon;
    assert(text =~= pre + dp + none);
    lemma_field_in_concat(pre, dp, none, 0x3a);
    assert(field_end(text, c + 1, 0x3a) == text.len());
    assert(text.subrange(c + 1, text.len() as int) == dp);
    assert(plain_port_of(dp) == Some(port));
    assert(is_digit(dp[0]));
    assert(port_of(dp) == Some(port));
    assert(host_of(host) == HostView::Ipv4(ip.0, ip.1, ip.2, ip.3));
}

/// The request for a resolved destination names it by its IPv4 address: ten
/// bytes, with the four octets and the port, high byte first.
pub proof fn lemma_request_for_resolved(ip: (u8, u8, u8, u8), port: u16)
    ensures
        request_for(socket_addr_text(ip, port)) == Ok::<Seq<u8>, Socks5Error>(
            seq![5u8, 1u8, 0u8, 1u8, ip.0, ip.1, ip.2, ip.3, (port / 256) as u8, (port % 256) as u8],
        ),
{
    lemma_socket_addr_round_trip(ip, port);
    let dest = (HostView::Ipv4(ip.0, ip.1, ip.2, ip.3), port);
    assert(crate::socks5::connect_request_bytes(dest) =~= seq![
        5u8,
        1u8,
        0u8,
        1u8,
        ip.0,
        ip.1,
        ip.2,
        ip.3,
        (port / 256) as u8,
        (port % 256) as u8,
    ]);
}

} // verus!
