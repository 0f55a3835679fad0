use vstd::prelude::*;

use crate::multiaddr::Multiaddr;

verus! {

/// Server names for which a port terminates TLS.
#[derive(Debug, Clone, PartialEq, Eq)]
pub struct TlsTermination {
    pub server_names: Vec<String>,
}

/// Options of a listener.
#[derive(Debug, Clone, PartialEq, Eq)]
pub struct PortOptions {
    /// The upstream that raw TCP traffic goes to, as `host:port`.
    pub upstream: Option<String>,
    pub tls_termination: Option<TlsTermination>,
}

/// A listener: where it listens and how.
#[derive(Debug, Clone, PartialEq, Eq)]
pub struct Port {
    pub listen: Multiaddr,
    pub opts: PortOptions,
}

/// An identified, operator-authored listener description.
#[derive(Debug, Clone, PartialEq, Eq)]
pub struct PortEntry {
    pub id: String,
    pub name: String,
    pub port: Port,
}

} // verus!
