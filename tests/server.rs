use std::str::FromStr;
use taxy::acme::{ChallengeResponder, HttpResponse};
use taxy::keyring::Cert;
use taxy::multiaddr::Multiaddr;
use taxy::port::{Port, PortEntry, PortOptions, TlsTermination};
use taxy::proxy::{PortContextEvent, SocketState, TlsState};
use taxy::server::{Dispatch, ServerCommand, Supervisor};

fn entry(id: &str, listen: &str, upstream: &str, names: Option<&[&str]>) -> PortEntry {
    PortEntry {
        id: id.to_string(),
        name: id.to_string(),
        port: Port {
            listen: Multiaddr::from_str(listen).unwrap(),
            opts: PortOptions {
                upstream: Some(upstream.to_string()),
                tls_termination: names.map(|n| TlsTermination {
                    server_names: n.iter().map(|s| s.to_string()).collect(),
                }),
            },
        },
    }
}

fn status_of(s: &Supervisor, id: &str) -> taxy::proxy::PortStatus {
    *s.ports_list().iter().find(|p| p.entry().id == id).unwrap().status()
}

#[test]
fn challenge_responder_scenario() {
    let mut r = ChallengeResponder::new();
    assert!(r.insert("T".to_string(), "K".to_string()));
    assert_eq!(
        r.respond("/.well-known/acme-challenge/T"),
        Some(HttpResponse { status: 200, body: "K".to_string() })
    );
    assert_eq!(
        r.respond("/.well-known/acme-challenge/U"),
        Some(HttpResponse { status: 404, body: String::new() })
    );
    assert_eq!(r.respond("/index.html"), None);
    assert!(r.insert("U".to_string(), "KU".to_string()));
    r.remove("U");
    assert_eq!(
        r.respond("/.well-known/acme-challenge/U"),
        Some(HttpResponse { status: 404, body: String::new() })
    );
    assert_eq!(r.lookup("T"), Some("K".to_string()));
    r.stop();
    assert_eq!(
        r.respond("/.well-known/acme-challenge/T"),
        Some(HttpResponse { status: 404, body: String::new() })
    );
    assert!(!r.insert("T".to_string(), "K".to_string()));
    r.begin_order();
    assert!(r.insert("T".to_string(), "K2".to_string()));
    assert_eq!(r.lookup("T"), Some("K2".to_string()));
}

#[test]
fn challenge_takes_precedence_over_routes() {
    let mut s = Supervisor::new();
    assert!(s.challenges_mut().insert("tok".to_string(), "key".to_string()));
    let routes = vec!["/".to_string()];
    assert_eq!(
        s.dispatch("/.well-known/acme-challenge/tok", &routes),
        Dispatch::Respond(HttpResponse { status: 200, body: "key".to_string() })
    );
    assert_eq!(s.dispatch("/ws", &routes), Dispatch::Route(0));
    assert_eq!(s.dispatch("/ws", &vec!["/api".to_string()]), Dispatch::NotFound);
    assert_eq!(s.handle::<()>(ServerCommand::StopHttpChallenges), None);
    assert_eq!(
        s.dispatch("/.well-known/acme-challenge/tok", &routes),
        Dispatch::Respond(HttpResponse { status: 404, body: String::new() })
    );
}

#[test]
fn reconfigure_keeps_unchanged_sockets() {
    let mut s = Supervisor::new();
    let errs = s.reconfigure(vec![
        entry("a", "/ip4/127.0.0.1/tcp/55010", "127.0.0.1:55011", None),
        entry("b", "/ip4/127.0.0.1/tcp/55020", "127.0.0.1:55021", None),
    ]);
    assert!(errs.is_empty());
    assert_eq!(s.ports_list().len(), 2);
    let mut ports = Vec::new();
    for p in s.ports_list() {
        ports.push(p.entry().id.clone());
    }
    assert_eq!(ports, vec!["a".to_string(), "b".to_string()]);
}

#[test]
fn hot_reconfig_keeps_started_at() {
    let mut s = Supervisor::new();
    s.reconfigure(vec![
        entry("a", "/ip4/127.0.0.1/tcp/55010", "u1", None),
        entry("b", "/ip4/127.0.0.1/tcp/55020", "u2", None),
    ]);
    assert!(s.port_event(&"a".to_string(), PortContextEvent::SocketStateUpdated(SocketState::Listening), 100));
    assert!(s.port_event(&"b".to_string(), PortContextEvent::SocketStateUpdated(SocketState::Listening), 200));
    assert!(!s.port_event(&"c".to_string(), PortContextEvent::SocketStateUpdated(SocketState::Listening), 300));
    let before_b = status_of(&s, "b");
    assert_eq!(before_b.started_at, Some(200));
    let errs = s.reconfigure(vec![
        entry("a", "/ip4/127.0.0.1/tcp/55010", "u1-changed", None),
        entry("b", "/ip4/127.0.0.1/tcp/55020", "u2", None),
        entry("", "/ip4/127.0.0.1/tcp/1", "u", None),
    ]);
    assert_eq!(errs.len(), 1);
    assert_eq!(status_of(&s, "b"), before_b);
    let dup = s.reconfigure(vec![
        entry("a", "/ip4/127.0.0.1/tcp/55010", "first", None),
        entry("b", "/ip4/127.0.0.1/tcp/55020", "u2", None),
        entry("a", "/ip4/127.0.0.1/tcp/55010", "second", None),
    ]);
    assert!(dup.is_empty());
    assert_eq!(s.ports_list().len(), 2);
    assert_eq!(
        s.ports_list().iter().find(|p| p.entry().id == "a").unwrap().entry().port.opts.upstream.as_deref(),
        Some("first")
    );
    s.reconfigure(vec![
        entry("a", "/ip4/127.0.0.1/tcp/55010", "u1-changed", None),
        entry("b", "/ip4/127.0.0.1/tcp/55020", "u2", None),
    ]);
    assert_eq!(status_of(&s, "a").started_at, Some(100));
    assert_eq!(
        s.ports_list().iter().find(|p| p.entry().id == "a").unwrap().entry().port.opts.upstream.as_deref(),
        Some("u1-changed")
    );
    s.reconfigure(vec![entry("b", "/ip4/127.0.0.1/tcp/55021", "u2", None)]);
    assert_eq!(s.ports_list().len(), 1);
    assert_eq!(status_of(&s, "b").started_at, None);
}

#[test]
fn cert_injection_activates_tls() {
    let mut s = Supervisor::new();
    s.reconfigure(vec![entry("t", "/ip4/127.0.0.1/tcp/55001/https", "u", Some(&["localhost"]))]);
    assert_eq!(status_of(&s, "t").state.tls, Some(TlsState::NoCertificate));
    let cert = Cert {
        id: "c1".to_string(),
        subjects: vec!["localhost".to_string()],
        not_before: 0,
        not_after: 10,
    };
    assert_eq!(s.handle::<()>(ServerCommand::AddCert { cert }), None);
    let st = status_of(&s, "t");
    assert_eq!(st.state.tls, Some(TlsState::Active));
    assert_eq!(st.state.socket, SocketState::Unknown);
    assert_eq!(st.started_at, None);
    assert_eq!(s.handle(ServerCommand::CallMethod { id: 4, arg: "m" }), Some((4, "m")));
    let events = s.status_events();
    assert_eq!(events.len(), 1);
    assert_eq!(events[0].0, "t");
    assert_eq!(events[0].1.state.tls, Some(TlsState::Active));
    assert_eq!(s.handle::<()>(ServerCommand::SetBroadcastEvents { enabled: false }), None);
    assert!(s.status_events().is_empty());
    let _ = PortContextEvent::SocketStateUpdated(SocketState::Listening);
}
