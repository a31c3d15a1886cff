use ip_addr::order::comes_before;
use ip_addr::{AddrKind, AddrParseError, IpAddr, Ipv4Addr, Ipv6Addr};
use ip_addr::{SocketAddr, SocketAddrExt, SocketAddrV4, SocketAddrV6};
use std::collections::HashSet;
use std::str::FromStr;

#[test]
fn display_ipv4() {
    let ipv4 = Ipv4Addr::new(192, 168, 0, 1);
    let ip = IpAddr::V4(ipv4);
    assert_eq!(ip.to_text(), ipv4.to_text());
}

#[test]
fn display_ipv6() {
    let ipv6 = Ipv6Addr::new(0x2001, 0x0db8, 0, 0, 0, 0, 0, 1);
    let ip = IpAddr::V6(ipv6);
    assert_eq!(ip.to_text(), ipv6.to_text());
}

#[test]
fn parse_ipv4() {
    let ipv4 = Ipv4Addr::parse("192.168.0.1").unwrap();
    let ip = IpAddr::from_str("192.168.0.1").unwrap();
    assert_eq!(IpAddr::V4(ipv4), ip);
}

#[test]
fn parse_ipv6() {
    let ipv6 = Ipv6Addr::parse("2001:0db8::0001").unwrap();
    let ip = IpAddr::from_str("2001:0db8::0001").unwrap();
    assert_eq!(IpAddr::V6(ipv6), ip);
}

#[test]
fn parse_fails() {
    let error = IpAddr::from_str("nonsense");
    assert!(error.is_err());
}

#[test]
fn to_from_socket_addr() {
    let set_ip = IpAddr::V4(Ipv4Addr::new(192, 168, 0, 1));
    let set_port = 45666;
    let socket_addr = <SocketAddr as SocketAddrExt>::new(set_ip, set_port);
    let get_ip = <SocketAddr as SocketAddrExt>::ip(&socket_addr);
    let get_port = socket_addr.port();
    assert_eq!(set_ip, get_ip);
    assert_eq!(set_port, get_port);
}

#[test]
fn parse_ipv4_gives_the_octets() {
    let ip = IpAddr::parse("192.168.0.1").unwrap();
    assert_eq!(ip, IpAddr::V4(Ipv4Addr::new(192, 168, 0, 1)));
    assert_eq!(ip.to_text(), "192.168.0.1");
    assert!(ip.is_ipv4());
    assert!(!ip.is_ipv6());
}

#[test]
fn parse_ipv6_gives_the_canonical_text() {
    let ip = IpAddr::parse("2001:0db8::0001").unwrap();
    assert_eq!(ip, IpAddr::V6(Ipv6Addr::new(0x2001, 0xdb8, 0, 0, 0, 0, 0, 1)));
    assert_eq!(ip.to_text(), "2001:db8::1");
    assert!(ip.is_ipv6());
}

#[test]
fn parse_failure_is_of_the_ipv6_reading() {
    assert_eq!(IpAddr::parse("nonsense"), Err(AddrParseError::new(AddrKind::Ipv6)));
    assert_eq!(IpAddr::parse("1.2.3"), Err(AddrParseError::new(AddrKind::Ipv6)));
    assert_eq!(IpAddr::parse("256.1.1.1").unwrap_err().kind(), AddrKind::Ipv6);
    assert_eq!(IpAddr::parse(""), Err(AddrParseError::new(AddrKind::Ipv6)));
    assert_eq!(Ipv4Addr::parse("nonsense"), Err(AddrParseError::new(AddrKind::Ipv4)));
    assert_eq!(Ipv6Addr::parse("nonsense"), Err(AddrParseError::new(AddrKind::Ipv6)));
}

#[test]
fn unspecified_address_round_trips_through_a_socket_address() {
    let ip = IpAddr::V4(Ipv4Addr::new(0, 0, 0, 0));
    let socket_addr = <SocketAddr as SocketAddrExt>::new(ip, 45666);
    assert_eq!(<SocketAddr as SocketAddrExt>::ip(&socket_addr), ip);
    assert_eq!(socket_addr.port(), 45666);
    assert_eq!(socket_addr, SocketAddr::V4(SocketAddrV4::new(Ipv4Addr::new(0, 0, 0, 0), 45666)));
}

#[test]
fn ipv6_socket_address_has_zero_flow_label_and_scope() {
    let v6 = Ipv6Addr::new(0xfe80, 0, 0, 0, 0, 0, 0, 1);
    let socket_addr = <SocketAddr as SocketAddrExt>::new(IpAddr::V6(v6), 0);
    assert_eq!(socket_addr, SocketAddr::V6(SocketAddrV6::new(v6, 0, 0, 0)));
    assert_eq!(<SocketAddr as SocketAddrExt>::ip(&socket_addr), IpAddr::V6(v6));
    assert_eq!(socket_addr.port(), 0);
    match socket_addr {
        SocketAddr::V6(a) => {
            assert_eq!(a.flowinfo(), 0);
            assert_eq!(a.scope_id(), 0);
            assert_eq!(*a.ip(), v6);
        }
        SocketAddr::V4(_) => panic!("an IPv6 address gives an IPv6 socket address"),
    }
}

#[test]
fn socket_address_drops_flow_label_and_scope() {
    let v6 = Ipv6Addr::new(1, 2, 3, 4, 5, 6, 7, 8);
    let socket_addr = SocketAddr::V6(SocketAddrV6::new(v6, 65535, 7, 9));
    assert_eq!(<SocketAddr as SocketAddrExt>::ip(&socket_addr), IpAddr::V6(v6));
    assert_eq!(socket_addr.port(), 65535);
}

#[test]
fn ipv4_text_of_each_width() {
    assert_eq!(Ipv4Addr::new(0, 0, 0, 0).to_text(), "0.0.0.0");
    assert_eq!(Ipv4Addr::new(255, 255, 255, 255).to_text(), "255.255.255.255");
    assert_eq!(Ipv4Addr::new(1, 10, 100, 9).to_text(), "1.10.100.9");
    assert_eq!(Ipv4Addr::new(127, 0, 0, 1).octets(), [127, 0, 0, 1]);
}

#[test]
fn ipv4_parse_accepts_only_the_canonical_text() {
    assert_eq!(Ipv4Addr::parse("0.0.0.0"), Ok(Ipv4Addr::new(0, 0, 0, 0)));
    assert_eq!(Ipv4Addr::parse("255.255.255.255"), Ok(Ipv4Addr::new(255, 255, 255, 255)));
    assert_eq!(Ipv4Addr::parse("1.10.100.9"), Ok(Ipv4Addr::new(1, 10, 100, 9)));
    for bad in [
        "", ".", "...", "1.2.3", "1.2.3.4.5", "1.2.3.4.", ".1.2.3.4", "1..2.3", "01.2.3.4",
        "1.2.3.04", "00.0.0.0", "256.0.0.0", "1.2.3.256", "1.2.3.1000", "1.2.3.-4", "1.2.3.4 ",
        " 1.2.3.4", "1.2.3.a", "1,2,3,4", "1.2.3.٤", "::1", "1.2.3.+4",
    ] {
        assert_eq!(Ipv4Addr::parse(bad), Err(AddrParseError::new(AddrKind::Ipv4)), "{}", bad);
    }
}

#[test]
fn ipv6_canonical_text() {
    assert_eq!(Ipv6Addr::new(0, 0, 0, 0, 0, 0, 0, 0).to_text(), "::");
    assert_eq!(Ipv6Addr::new(0, 0, 0, 0, 0, 0, 0, 1).to_text(), "::1");
    assert_eq!(Ipv6Addr::new(1, 0, 0, 0, 0, 0, 0, 0).to_text(), "1::");
    assert_eq!(Ipv6Addr::new(0x2001, 0xdb8, 0, 0, 0, 0, 0, 1).to_text(), "2001:db8::1");
    assert_eq!(Ipv6Addr::new(1, 2, 3, 4, 5, 6, 7, 8).to_text(), "1:2:3:4:5:6:7:8");
    assert_eq!(
        Ipv6Addr::new(0xffff, 0xffff, 0xffff, 0xffff, 0xffff, 0xffff, 0xffff, 0xffff).to_text(),
        "ffff:ffff:ffff:ffff:ffff:ffff:ffff:ffff"
    );
    assert_eq!(Ipv6Addr::new(0xabcd, 0x0ef0, 0x12, 0x3, 0, 5, 6, 7).to_text(), "abcd:ef0:12:3:0:5:6:7");
    assert_eq!(Ipv6Addr::new(1, 0, 0, 2, 0, 0, 0, 3).to_text(), "1:0:0:2::3");
    assert_eq!(Ipv6Addr::new(1, 0, 0, 2, 0, 0, 3, 4).to_text(), "1::2:0:0:3:4");
    assert_eq!(Ipv6Addr::new(1, 0, 2, 0, 3, 0, 4, 0).to_text(), "1:0:2:0:3:0:4:0");
    assert_eq!(Ipv6Addr::new(0, 1, 2, 3, 4, 5, 6, 7).to_text(), "0:1:2:3:4:5:6:7");
    assert_eq!(Ipv6Addr::new(0, 0, 1, 2, 3, 4, 5, 6).to_text(), "::1:2:3:4:5:6");
    assert_eq!(Ipv6Addr::new(1, 2, 3, 4, 5, 6, 0, 0).to_text(), "1:2:3:4:5:6::");
    assert_eq!(Ipv6Addr::new(0, 0, 0, 0, 0, 0xffff, 0xc0a8, 0x0001).to_text(), "::ffff:192.168.0.1");
    assert_eq!(Ipv6Addr::new(0, 0, 0, 0, 0, 0, 0xc0a8, 0x0001).to_text(), "::c0a8:1");
    assert_eq!(Ipv6Addr::new(1, 2, 3, 4, 5, 6, 7, 8).segments(), [1, 2, 3, 4, 5, 6, 7, 8]);
}

#[test]
fn ipv6_parse_accepts_the_notation() {
    let ok = |s: &str, g: [u16; 8]| {
        assert_eq!(
            Ipv6Addr::parse(s),
            Ok(Ipv6Addr::new(g[0], g[1], g[2], g[3], g[4], g[5], g[6], g[7])),
            "{}",
            s
        );
    };
    ok("::", [0, 0, 0, 0, 0, 0, 0, 0]);
    ok("::1", [0, 0, 0, 0, 0, 0, 0, 1]);
    ok("1::", [1, 0, 0, 0, 0, 0, 0, 0]);
    ok("1:2:3:4:5:6:7:8", [1, 2, 3, 4, 5, 6, 7, 8]);
    ok("1:2:3:4:5:6:7::", [1, 2, 3, 4, 5, 6, 7, 0]);
    ok("::2:3:4:5:6:7:8", [0, 2, 3, 4, 5, 6, 7, 8]);
    ok("1:2:3::6:7:8", [1, 2, 3, 0, 0, 6, 7, 8]);
    ok("2001:0db8::0001", [0x2001, 0xdb8, 0, 0, 0, 0, 0, 1]);
    ok("2001:DB8::AbCd", [0x2001, 0xdb8, 0, 0, 0, 0, 0, 0xabcd]);
    ok("0000:0000:0000:0000:0000:0000:0000:0000", [0, 0, 0, 0, 0, 0, 0, 0]);
    ok("ffff:ffff:ffff:ffff:ffff:ffff:ffff:ffff", [0xffff; 8]);
    ok("::192.168.0.1", [0, 0, 0, 0, 0, 0, 0xc0a8, 1]);
    ok("::ffff:192.168.0.1", [0, 0, 0, 0, 0, 0xffff, 0xc0a8, 1]);
    ok("1:2:3:4:5:6:1.2.3.4", [1, 2, 3, 4, 5, 6, 0x0102, 0x0304]);
    ok("1:2:3:4:5::1.2.3.4", [1, 2, 3, 4, 5, 0, 0x0102, 0x0304]);
    ok("64:ff9b::255.255.255.255", [0x64, 0xff9b, 0, 0, 0, 0, 0xffff, 0xffff]);
}

#[test]
fn ipv6_parse_rejects_what_is_no_address() {
    for bad in [
        "", ":", ":::", "1", "1:2:3:4:5:6:7", "1:2:3:4:5:6:7:8:9", "1:2:3:4:5:6:7:8::",
        "::1:2:3:4:5:6:7:8", "1::2::3", "1:::2", ":1:2:3:4:5:6:7:8", "1:2:3:4:5:6:7:8:",
        "1:2:3:4:5:6:7:", ":1::", "12345::", "::12345", "g::", "::g", "1.2.3.4", "1.2.3.4::",
        "1:2:3:4:5:6:7:1.2.3.4", "1:2:3:4:5:6::1.2.3.4", "::1.2.3", "::1.2.3.4.5", "::1.2.3.256",
        "::01.2.3.4", "::1.2.3.4:5", "1.2.3.4:5:6:7:8:9:10", "::1%eth0", " ::1", "::1 ", "::١",
        "1:2:3:4:5:6:7:8::1",
    ] {
        assert_eq!(Ipv6Addr::parse(bad), Err(AddrParseError::new(AddrKind::Ipv6)), "{}", bad);
    }
}

#[test]
fn text_of_a_parsed_address_parses_to_the_same_address() {
    for s in [
        "192.168.0.1", "0.0.0.0", "255.255.255.255", "2001:0db8::0001", "::", "::1",
        "1:0:0:2:0:0:0:3", "0:0:1:0:0:0:0:1", "::ffff:1.2.3.4", "0:0:0:0:0:ffff:102:304",
        "::1.2.3.4", "1:2:3:4:5:6:7:0", "0:2:3:4:5:6:7:8", "FE80::0:1",
    ] {
        let ip = IpAddr::parse(s).unwrap();
        let text = ip.to_text();
        assert_eq!(IpAddr::parse(&text), Ok(ip), "{}", s);
        assert_eq!(IpAddr::parse(&text).unwrap().to_text(), text, "{}", s);
    }
}

#[test]
fn ipv4_text_that_parses_is_the_text_of_the_address() {
    for s in ["192.168.0.1", "0.0.0.0", "255.255.255.255", "10.20.30.40", "9.99.199.0"] {
        assert_eq!(IpAddr::parse(s).unwrap().to_text(), s);
    }
}

#[test]
fn address_round_trips_through_a_socket_address_for_each_family() {
    let addrs = [
        IpAddr::V4(Ipv4Addr::new(192, 168, 0, 1)),
        IpAddr::V4(Ipv4Addr::new(0, 0, 0, 0)),
        IpAddr::V6(Ipv6Addr::new(0, 0, 0, 0, 0, 0, 0, 0)),
        IpAddr::V6(Ipv6Addr::new(0x2001, 0xdb8, 0, 0, 0, 0, 0, 1)),
    ];
    for ip in addrs {
        for port in [0u16, 1, 80, 45666, 65535] {
            let socket_addr = <SocketAddr as SocketAddrExt>::new(ip, port);
            assert_eq!(<SocketAddr as SocketAddrExt>::ip(&socket_addr), ip);
            assert_eq!(socket_addr.port(), port);
        }
    }
}

#[test]
fn every_ipv4_address_comes_before_every_ipv6_address() {
    let low6 = IpAddr::V6(Ipv6Addr::new(0, 0, 0, 0, 0, 0, 0, 0));
    let high6 = IpAddr::V6(Ipv6Addr::new(0xffff, 0xffff, 0xffff, 0xffff, 0xffff, 0xffff, 0xffff, 0xffff));
    let low4 = IpAddr::V4(Ipv4Addr::new(0, 0, 0, 0));
    let high4 = IpAddr::V4(Ipv4Addr::new(255, 255, 255, 255));
    for v4 in [low4, high4] {
        for v6 in [low6, high6] {
            assert!(v4 < v6);
            assert!(v6 > v4);
            assert!(!(v6 < v4));
            assert_eq!(v4.cmp(&v6), std::cmp::Ordering::Less);
            assert_eq!(v4.partial_cmp(&v6), Some(std::cmp::Ordering::Less));
            assert!(comes_before(&v4, &v6));
            assert!(!comes_before(&v6, &v4));
        }
    }
}

#[test]
fn addresses_of_one_family_are_ordered_as_numbers() {
    let a = Ipv4Addr::new(1, 255, 255, 255);
    let b = Ipv4Addr::new(2, 0, 0, 0);
    assert!(a < b);
    assert!(IpAddr::V4(a) < IpAddr::V4(b));
    assert_eq!(a.cmp(&b), std::cmp::Ordering::Less);
    assert_eq!(a.partial_cmp(&a), Some(std::cmp::Ordering::Equal));
    assert_eq!(b.partial_cmp(&a), Some(std::cmp::Ordering::Greater));
    assert_eq!(Ipv4Addr::new(192, 168, 0, 1).to_bits(), 0xc0a8_0001);
    let c = Ipv6Addr::new(0, 0xffff, 0xffff, 0xffff, 0xffff, 0xffff, 0xffff, 0xffff);
    let d = Ipv6Addr::new(1, 0, 0, 0, 0, 0, 0, 0);
    assert!(c < d);
    assert!(IpAddr::V6(c) < IpAddr::V6(d));
    assert_eq!(c.cmp(&d), std::cmp::Ordering::Less);
    assert_eq!(IpAddr::V6(d).cmp(&IpAddr::V6(c)), std::cmp::Ordering::Greater);
    assert_eq!(
        Ipv6Addr::new(0x2001, 0xdb8, 0, 0, 0, 0, 0, 1).to_bits(),
        0x2001_0db8_0000_0000_0000_0000_0000_0001
    );
    assert!(!comes_before(&IpAddr::V4(a), &IpAddr::V4(a)));
    assert!(comes_before(&IpAddr::V6(c), &IpAddr::V6(d)));
}

#[test]
fn equal_addresses_hash_alike() {
    let mut set = HashSet::new();
    set.insert(IpAddr::parse("2001:0db8::0001").unwrap());
    set.insert(IpAddr::parse("2001:db8::1").unwrap());
    set.insert(IpAddr::parse("192.168.0.1").unwrap());
    assert_eq!(set.len(), 2);
}
