use portscan::ip::{parse_v4_literal, IpAddress};
use portscan::resolver::{
    resolve_host, resolve_port, HostLookup, ResolveHostError, ResolvePortError,
};

#[test]
fn port_in_range_round_trips() {
    assert_eq!(resolve_port("0"), Ok(0));
    assert_eq!(resolve_port("1"), Ok(1));
    assert_eq!(resolve_port("80"), Ok(80));
    assert_eq!(resolve_port("8080"), Ok(8080));
    assert_eq!(resolve_port("65535"), Ok(65535));
}

#[test]
fn every_port_number_round_trips() {
    for p in 0..=65535u16 {
        assert_eq!(resolve_port(&format!("{}", p)), Ok(p));
    }
    for over in [65536u32, 65537, 99999, 1000000] {
        assert_eq!(
            resolve_port(&format!("{}", over)),
            Err(ResolvePortError::OutOfRange)
        );
    }
}

#[test]
fn port_with_sign_and_zeros() {
    assert_eq!(resolve_port("+25"), Ok(25));
    assert_eq!(resolve_port("007"), Ok(7));
    assert_eq!(resolve_port("+0"), Ok(0));
}

#[test]
fn port_out_of_range_is_a_range_error() {
    assert_eq!(resolve_port("65536"), Err(ResolvePortError::OutOfRange));
    assert_eq!(resolve_port("70000"), Err(ResolvePortError::OutOfRange));
    assert_eq!(
        resolve_port("99999999999999999999"),
        Err(ResolvePortError::OutOfRange)
    );
}

#[test]
fn port_that_is_not_a_number_is_a_format_error() {
    assert_eq!(resolve_port(""), Err(ResolvePortError::InvalidFormat));
    assert_eq!(resolve_port("abc"), Err(ResolvePortError::InvalidFormat));
    assert_eq!(resolve_port("-1"), Err(ResolvePortError::InvalidFormat));
    assert_eq!(resolve_port("80a"), Err(ResolvePortError::InvalidFormat));
    assert_eq!(resolve_port("8 0"), Err(ResolvePortError::InvalidFormat));
    assert_eq!(resolve_port("+"), Err(ResolvePortError::InvalidFormat));
    assert_eq!(resolve_port("++1"), Err(ResolvePortError::InvalidFormat));
}

#[test]
fn port_error_messages() {
    assert_eq!(
        ResolvePortError::InvalidFormat.message(),
        "Invalid port."
    );
    assert_eq!(
        ResolvePortError::OutOfRange.message(),
        "Port out of range."
    );
}

#[test]
fn v4_literals_parse_to_their_octets() {
    assert_eq!(
        parse_v4_literal("127.0.0.1"),
        Some(IpAddress::V4(127, 0, 0, 1))
    );
    assert_eq!(
        parse_v4_literal("255.255.255.255"),
        Some(IpAddress::V4(255, 255, 255, 255))
    );
    assert_eq!(parse_v4_literal("0.0.0.0"), Some(IpAddress::V4(0, 0, 0, 0)));
    assert_eq!(
        parse_v4_literal("192.168.1.42"),
        Some(IpAddress::V4(192, 168, 1, 42))
    );
}

#[test]
fn malformed_v4_literals_are_rejected() {
    assert_eq!(parse_v4_literal(""), None);
    assert_eq!(parse_v4_literal("example.com"), None);
    assert_eq!(parse_v4_literal("1.2.3"), None);
    assert_eq!(parse_v4_literal("1.2.3.4.5"), None);
    assert_eq!(parse_v4_literal("256.0.0.1"), None);
    assert_eq!(parse_v4_literal("01.2.3.4"), None);
    assert_eq!(parse_v4_literal("1..2.3"), None);
    assert_eq!(parse_v4_literal("1.2.3."), None);
    assert_eq!(parse_v4_literal(".1.2.3"), None);
    assert_eq!(parse_v4_literal("1.2.3.1000"), None);
    assert_eq!(parse_v4_literal("a.b.c.d"), None);
}

#[test]
fn literal_host_resolves_without_lookup() {
    // the loopback check: a literal is returned as given, and the lookup
    // outcome — even a failed one — is never consulted
    assert_eq!(
        resolve_host("127.0.0.1", &HostLookup::Failed),
        Ok(IpAddress::V4(127, 0, 0, 1))
    );
    assert_eq!(
        resolve_host("127.0.0.1", &HostLookup::Addresses(vec![])),
        Ok(IpAddress::V4(127, 0, 0, 1))
    );
    assert_eq!(
        resolve_host(
            "10.1.2.3",
            &HostLookup::Addresses(vec![IpAddress::V4(8, 8, 8, 8)])
        ),
        Ok(IpAddress::V4(10, 1, 2, 3))
    );
}

#[test]
fn named_host_takes_the_first_looked_up_address() {
    let addrs = vec![IpAddress::V4(93, 184, 216, 34), IpAddress::V4(1, 1, 1, 1)];
    assert_eq!(
        resolve_host("example.com", &HostLookup::Addresses(addrs)),
        Ok(IpAddress::V4(93, 184, 216, 34))
    );
    let v6_first = vec![
        IpAddress::V6(0x2606, 0x2800, 0x220, 1, 0x248, 0x1893, 0x25c8, 0x1946),
        IpAddress::V4(93, 184, 216, 34),
    ];
    assert_eq!(
        resolve_host("example.com", &HostLookup::Addresses(v6_first)),
        Ok(IpAddress::V6(
            0x2606, 0x2800, 0x220, 1, 0x248, 0x1893, 0x25c8, 0x1946
        ))
    );
}

#[test]
fn named_host_lookup_failures_map_to_error_kinds() {
    assert_eq!(
        resolve_host("no.such.invalid", &HostLookup::Failed),
        Err(ResolveHostError::HostResolution)
    );
    assert_eq!(
        resolve_host("no.such.invalid", &HostLookup::Addresses(vec![])),
        Err(ResolveHostError::NoAddress)
    );
}

#[test]
fn host_error_messages() {
    assert_eq!(
        ResolveHostError::HostResolution.message(),
        "Could not resolve hostname."
    );
    assert_eq!(ResolveHostError::NoAddress.message(), "Could not get ip.");
}
