use blksocks::addr::{format_socket_addr, push_decimal};
use blksocks::relay::destination_ip;
use blksocks::socks5::{build_connect_request, parse_destination, parse_socket_addr, Destination, Host};
use blksocks::stats::IpAddress;

#[test]
fn written_addresses_read_back() {
    let ips = [(0u8, 0u8, 0u8, 0u8), (10, 0, 0, 5), (192, 168, 100, 1), (255, 255, 255, 255), (9, 99, 199, 200)];
    let ports = [0u16, 1, 9, 10, 80, 443, 999, 1000, 8443, 65535];
    for ip in ips {
        for port in ports {
            let text = format_socket_addr(ip, port);
            assert_eq!(parse_socket_addr(&text), Some((ip, port)));
            assert_eq!(
                parse_destination(&text),
                Ok(Destination { host: Host::Ipv4(ip.0, ip.1, ip.2, ip.3), port })
            );
            assert_eq!(
                build_connect_request(&text),
                Ok(vec![5, 1, 0, 1, ip.0, ip.1, ip.2, ip.3, (port >> 8) as u8, (port & 0xff) as u8])
            );
        }
    }
}

#[test]
fn resolved_destination_counts_for_its_address() {
    let text = format_socket_addr((10, 0, 0, 5), 8443);
    assert_eq!(String::from_utf8(text.clone()).unwrap(), "10.0.0.5:8443");
    assert_eq!(destination_ip(&text), Some(IpAddress::V4(167_772_165)));
}

#[test]
fn decimal_digits_are_appended() {
    let mut out = b"n=".to_vec();
    push_decimal(&mut out, 0);
    out.push(b',');
    push_decimal(&mut out, 7);
    out.push(b',');
    push_decimal(&mut out, 10);
    out.push(b',');
    push_decimal(&mut out, 65535);
    assert_eq!(out, b"n=0,7,10,65535".to_vec());
}
