use std::str::FromStr;
use taxy::error::Error;
use taxy::keyring::{Cert, Keyring};
use taxy::ip::IpAddr;
use taxy::multiaddr::{Multiaddr, SocketAddr};
use taxy::port::{Port, PortEntry, PortOptions, TlsTermination};
use taxy::proxy::{PortContext, PortContextEvent, PortContextKind, SocketState, TlsState};

fn entry(name: &str, listen: &str, upstream: &str) -> PortEntry {
    PortEntry {
        id: "a".to_string(),
        name: name.to_string(),
        port: Port {
            listen: Multiaddr::from_str(listen).unwrap(),
            opts: PortOptions { upstream: Some(upstream.to_string()), tls_termination: None },
        },
    }
}

#[test]
fn name_length_limits() {
    let long = "x".repeat(33);
    match PortContext::new(entry(&long, "/ip4/127.0.0.1/tcp/55010", "127.0.0.1:55011")) {
        Err(Error::InvalidName { name }) => assert_eq!(name, long),
        other => panic!("{other:?}"),
    }
    match PortContext::new(entry("", "/ip4/127.0.0.1/tcp/55010", "127.0.0.1:55011")) {
        Err(Error::InvalidName { name }) => assert_eq!(name, ""),
        other => panic!("{other:?}"),
    }
    assert!(PortContext::new(entry("x", "/ip4/127.0.0.1/tcp/55010", "u")).is_ok());
    assert!(PortContext::new(entry(&"é".repeat(32), "/ip4/127.0.0.1/tcp/55010", "u")).is_ok());
}

#[test]
fn listen_address_must_resolve() {
    match PortContext::new(entry("p", "/dns/example.com/tcp/80", "u")) {
        Err(Error::InvalidMultiaddr { addr }) => assert_eq!(addr, "/dns/example.com/tcp/80"),
        other => panic!("{other:?}"),
    }
}

#[test]
fn started_at_set_on_first_listening() {
    let mut ctx = PortContext::new(entry("p", "/ip4/127.0.0.1/tcp/55010", "u")).unwrap();
    assert_eq!(ctx.status().state.socket, SocketState::Unknown);
    assert_eq!(ctx.status().started_at, None);
    ctx.event_at(PortContextEvent::SocketStateUpdated(SocketState::AddressAlreadyInUse), 5);
    assert_eq!(ctx.status().state.socket, SocketState::AddressAlreadyInUse);
    assert_eq!(ctx.status().started_at, None);
    ctx.event_at(PortContextEvent::SocketStateUpdated(SocketState::Listening), 10);
    assert_eq!(ctx.status().started_at, Some(10));
    ctx.event_at(PortContextEvent::SocketStateUpdated(SocketState::Error), 20);
    ctx.event_at(PortContextEvent::SocketStateUpdated(SocketState::Listening), 30);
    assert_eq!(ctx.status().started_at, Some(10));
    ctx.event(PortContextEvent::SocketStateUpdated(SocketState::PermissionDenied));
    assert_eq!(ctx.status().state.socket, SocketState::PermissionDenied);
    assert_eq!(ctx.status().started_at, Some(10));
}

#[test]
fn apply_keeps_socket_when_address_unchanged() {
    let mut ctx = PortContext::new(entry("p", "/ip4/127.0.0.1/tcp/55010", "u1")).unwrap();
    ctx.event_at(PortContextEvent::SocketStateUpdated(SocketState::Listening), 7);
    ctx.apply(PortContext::new(entry("p", "/ip4/127.0.0.1/tcp/55010", "u2")).unwrap());
    assert_eq!(ctx.status().started_at, Some(7));
    assert_eq!(ctx.entry().port.opts.upstream.as_deref(), Some("u2"));

    ctx.apply(PortContext::new(entry("p", "/ip4/127.0.0.1/tcp/55012", "u2")).unwrap());
    assert_eq!(ctx.status().started_at, None);
    assert_eq!(ctx.status().state.socket, SocketState::Unknown);
    match ctx.kind() {
        PortContextKind::Tcp(t) => {
            assert_eq!(t.listen, SocketAddr { ip: IpAddr::V4(127, 0, 0, 1), port: 55012 })
        }
    }
}

#[test]
fn kind_mut_changes_kind() {
    let mut ctx = PortContext::new(entry("p", "/ip4/127.0.0.1/tcp/1", "u")).unwrap();
    match ctx.kind_mut() {
        PortContextKind::Tcp(t) => t.status.state.tls = Some(TlsState::NoCertificate),
    }
    assert_eq!(ctx.status().state.tls, Some(TlsState::NoCertificate));
    let _ = TlsTermination { server_names: vec![] };
}

#[test]
fn event_uses_the_wall_clock() {
    let mut ctx = PortContext::new(entry("p", "/ip4/127.0.0.1/tcp/55010", "u")).unwrap();
    ctx.event(PortContextEvent::SocketStateUpdated(SocketState::Listening));
    let t = ctx.status().started_at.unwrap();
    assert!(t > 1_600_000_000);
}

#[test]
fn prepare_and_setup() {
    let mut e = entry("p", "/ip4/127.0.0.1/tcp/55001/https", "u");
    e.port.opts.tls_termination = Some(TlsTermination { server_names: vec!["localhost".to_string()] });
    let mut ctx = PortContext::new(e).unwrap();
    assert!(ctx.prepare().is_ok());
    let mut keys = Keyring::new();
    ctx.setup(&keys);
    assert_eq!(ctx.status().state.tls, Some(TlsState::NoCertificate));
    keys.insert(Cert { id: "1".to_string(), subjects: vec!["*.example.com".to_string()], not_before: 0, not_after: 1 });
    ctx.setup(&keys);
    assert_eq!(ctx.status().state.tls, Some(TlsState::NoCertificate));
    keys.insert(Cert { id: "2".to_string(), subjects: vec!["localhost".to_string()], not_before: 0, not_after: 1 });
    ctx.setup(&keys);
    assert_eq!(ctx.status().state.tls, Some(TlsState::Active));
    let mut plain = PortContext::new(entry("q", "/ip4/127.0.0.1/tcp/1", "u")).unwrap();
    plain.setup(&keys);
    assert_eq!(plain.status().state.tls, None);
}
