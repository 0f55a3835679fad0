use std::str::FromStr;
use taxy::error::Error;
use taxy::ip::IpAddr;
use taxy::multiaddr::{Multiaddr, SocketAddr};

#[test]
fn test_multiaddr() {
    let addr = Multiaddr::from_str("/dns/example.com/tcp/8080").unwrap();
    assert_eq!(addr.to_string(), "/dns/example.com/tcp/8080");
    assert_eq!(addr.is_http(), false);
    assert_eq!(addr.is_tls(), false);

    let addr = Multiaddr::from_str("/ip4/127.0.0.1/tcp/8080").unwrap();
    assert_eq!(addr.to_string(), "/ip4/127.0.0.1/tcp/8080");
    assert_eq!(addr.is_http(), false);
    assert_eq!(addr.is_tls(), false);

    let addr = Multiaddr::from_str("/ip4/127.0.0.1/tcp/8080/tls").unwrap();
    assert_eq!(addr.to_string(), "/ip4/127.0.0.1/tcp/8080/tls");
    assert_eq!(addr.is_http(), false);
    assert_eq!(addr.is_tls(), true);

    let addr = Multiaddr::from_str("/ip4/127.0.0.1/tcp/8080/http").unwrap();
    assert_eq!(addr.to_string(), "/ip4/127.0.0.1/tcp/8080/http");
    assert_eq!(addr.is_http(), true);
    assert_eq!(addr.is_tls(), false);

    let addr = Multiaddr::from_str("/ip6/::/tcp/8080/https/example.com/index.html").unwrap();
    assert_eq!(
        addr.to_string(),
        "/ip6/::/tcp/8080/https/example.com/index.html"
    );
    assert_eq!(addr.is_http(), true);
    assert_eq!(addr.is_tls(), true);
}

#[test]
fn normalizes_tls_http_to_https() {
    let addr = Multiaddr::parse("/ip6/::/tcp/8080/tls/http/foo").unwrap();
    assert_eq!(addr.to_string(), "/ip6/::/tcp/8080/https/foo");
}

#[test]
fn elides_root_http_path() {
    assert_eq!(Multiaddr::parse("/ip4/1.2.3.4/tcp/80/http/").unwrap().to_string(), "/ip4/1.2.3.4/tcp/80/http");
    assert_eq!(Multiaddr::parse("/ip4/1.2.3.4/tcp/80/https").unwrap().to_string(), "/ip4/1.2.3.4/tcp/80/https");
}

#[test]
fn skips_unknown_tokens_and_leading_slashes() {
    let addr = Multiaddr::parse("///foo/ip4/10.0.0.1/bar/tcp/443").unwrap();
    assert_eq!(addr.to_string(), "/ip4/10.0.0.1/tcp/443");
    let addr = Multiaddr::parse("").unwrap();
    assert_eq!(addr.to_string(), "");
}

#[test]
fn rejects_bad_values() {
    for s in [
        "/ip4/127.0.0.1/tcp/65536",
        "/ip4/127.0.0.1/tcp/http",
        "/ip4/127.0.0.1/tcp/",
        "/ip4/256.0.0.1/tcp/80",
        "/ip4/01.0.0.1/tcp/80",
        "/ip4/1.2.3/tcp/80",
        "/ip4/::1/tcp/80",
        "/ip6/1.2.3.4/tcp/80",
        "/ip6/1:2:3:4:5:6:7/tcp/80",
        "/ip6/1::2::3/tcp/80",
        "/ip6/12345::/tcp/80",
    ] {
        match Multiaddr::parse(s) {
            Err(Error::InvalidMultiaddr { addr }) => assert_eq!(addr, s),
            other => panic!("{s}: {other:?}"),
        }
    }
}

#[test]
fn port_bounds() {
    let a = Multiaddr::parse("/ip4/0.0.0.0/tcp/65535").unwrap();
    assert_eq!(a.port().unwrap(), 65535);
    let a = Multiaddr::parse("/ip4/0.0.0.0/tcp/+007").unwrap();
    assert_eq!(a.port().unwrap(), 7);
    assert_eq!(a.to_string(), "/ip4/0.0.0.0/tcp/7");
}

#[test]
fn ipv6_forms() {
    let a = Multiaddr::parse("/ip6/2001:DB8:0:0:0:0:0:1/tcp/1").unwrap();
    assert_eq!(a.to_string(), "/ip6/2001:db8::1/tcp/1");
    assert_eq!(a.ip_addr().unwrap(), IpAddr::V6(0x2001, 0xdb8, 0, 0, 0, 0, 0, 1));
    let a = Multiaddr::parse("/ip6/1:0:0:2:0:0:0:3/tcp/1").unwrap();
    assert_eq!(a.to_string(), "/ip6/1:0:0:2::3/tcp/1");
    let a = Multiaddr::parse("/ip6/1:0:0:2:0:0:3:4/tcp/1").unwrap();
    assert_eq!(a.to_string(), "/ip6/1::2:0:0:3:4/tcp/1");
    let a = Multiaddr::parse("/ip6/1:2:3:4:5:6:7:0/tcp/1").unwrap();
    assert_eq!(a.to_string(), "/ip6/1:2:3:4:5:6:7:0/tcp/1");
    let a = Multiaddr::parse("/ip6/::1/tcp/1").unwrap();
    assert_eq!(a.host().unwrap(), "::1");
}

#[test]
fn accessors() {
    let a = Multiaddr::parse("/ip4/127.0.0.1/tcp/8080/https").unwrap();
    assert_eq!(a.socket_addr().unwrap(), SocketAddr { ip: IpAddr::V4(127, 0, 0, 1), port: 8080 });
    assert_eq!(a.host().unwrap(), "127.0.0.1");
    assert_eq!(a.protocol_name(), "HTTPS");
    let d = Multiaddr::parse("/dns/example.com/tcp/1/tls").unwrap();
    assert_eq!(d.host().unwrap(), "example.com");
    assert_eq!(d.protocol_name(), "TCP over TLS");
    match d.ip_addr() {
        Err(Error::InvalidMultiaddr { addr }) => assert_eq!(addr, "/dns/example.com/tcp/1/tls"),
        other => panic!("{other:?}"),
    }
    assert_eq!(Multiaddr::parse("/ip4/1.1.1.1/tcp/1/http/x").unwrap().protocol_name(), "HTTP");
    assert_eq!(Multiaddr::parse("/ip4/1.1.1.1/tcp/1").unwrap().protocol_name(), "TCP");
    assert!(Multiaddr::parse("/ip4/1.1.1.1").unwrap().port().is_err());
}

#[test]
fn formatting_is_a_fixed_point() {
    for s in [
        "/dns/example.com/tcp/8080",
        "/tls/ip4/1.2.3.4/tcp/443/http/a/b",
        "/ip6/0:0:0:0:0:0:0:1/tcp/1/tls/tls",
        "/ip6/fe80::1:0:0:1/tcp/9/https//x/",
        "//x/dns//tcp/080/http/",
        "/ip4/10.0.0.1/unknown/tcp/1/https",
    ] {
        let once = Multiaddr::parse(s).unwrap().to_string();
        let twice = Multiaddr::parse(&once).unwrap().to_string();
        assert_eq!(once, twice, "{s}");
    }
    assert_eq!(
        Multiaddr::parse("/tls/ip4/1.2.3.4/tcp/443/http/a/b").unwrap().to_string(),
        "/ip4/1.2.3.4/tcp/443/https/a/b"
    );
    assert_eq!(
        Multiaddr::parse("/ip6/fe80::1:0:0:1/tcp/9/https//x/").unwrap().to_string(),
        "/ip6/fe80::1:0:0:1/tcp/9/https//x/"
    );
}

#[test]
fn bad_value_after_good_layers_is_rejected() {
    assert!(Multiaddr::parse("/dns/a/tcp/99999").is_err());
    assert!(Multiaddr::parse("/tls/ip4/1.2.3.4.5").is_err());
    assert!(Multiaddr::parse("/ip6/g::1").is_err());
    assert!(Multiaddr::parse("/http/tcp/notaport").is_ok());
}

#[test]
fn ipv6_with_ipv4_tail() {
    let a = Multiaddr::from_str("/ip6/::ffff:1.2.3.4/tcp/1").unwrap();
    assert_eq!(a.ip_addr().unwrap(), IpAddr::V6(0, 0, 0, 0, 0, 0xffff, 0x0102, 0x0304));
    assert_eq!(a.to_string(), "/ip6/::ffff:1.2.3.4/tcp/1");
    let b = Multiaddr::from_str("/ip6/::ffff:102:304/tcp/1").unwrap();
    assert_eq!(b.to_string(), "/ip6/::ffff:1.2.3.4/tcp/1");
    let c = Multiaddr::from_str("/ip6/1:2:3:4:5:6:7.8.9.10/tcp/1").unwrap();
    assert_eq!(c.ip_addr().unwrap(), IpAddr::V6(1, 2, 3, 4, 5, 6, 0x0708, 0x090a));
    assert_eq!(c.to_string(), "/ip6/1:2:3:4:5:6:708:90a/tcp/1");
    assert!(Multiaddr::from_str("/ip6/1:2:3:4:5:6:7:1.2.3.4/tcp/1").is_err());
    assert!(Multiaddr::from_str("/ip6/1.2.3.4::/tcp/1").is_err());
}

#[test]
fn from_str_rejects_bad_values() {
    for s in [
        "/ip4/127.0.0.1/tcp/65536",
        "/ip4/127.0.0.1/tcp/-1",
        "/ip4/127.0.0.1/tcp/abc",
        "/ip4/localhost/tcp/80",
        "/ip4/::1/tcp/80",
        "/ip6/zz::1/tcp/80",
        "/ip6/127.0.0.1/tcp/80",
    ] {
        match Multiaddr::from_str(s) {
            Err(Error::InvalidMultiaddr { addr }) => assert_eq!(addr, s),
            other => panic!("{s}: {other:?}"),
        }
    }
}

#[test]
fn https_equals_tls_http_and_path_is_verbatim() {
    let a = Multiaddr::from_str("/ip4/1.1.1.1/tcp/1/https/x/tcp/y").unwrap();
    let b = Multiaddr::from_str("/ip4/1.1.1.1/tcp/1/tls/http/x/tcp/y").unwrap();
    assert_eq!(a, b);
    assert_eq!(a.to_string(), "/ip4/1.1.1.1/tcp/1/https/x/tcp/y");
    let u = Multiaddr::from_str("/ip4/1.1.1.1/zzz/tcp/1").unwrap();
    assert_eq!(u, Multiaddr::from_str("/ip4/1.1.1.1/tcp/1").unwrap());
}
