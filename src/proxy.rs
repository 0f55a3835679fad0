use vstd::prelude::*;

use crate::error::{is_invalid_multiaddr, is_invalid_name, Error};
use crate::multiaddr::{first_ip, first_port, fmt_multiaddr, SocketAddr};
use crate::keyring::{covers, Cert, Keyring};
use crate::port::PortEntry;

verus! {

/// The longest name, in characters, that a port entry may have.
pub const MAX_NAME_LEN: usize = 32;

/// The state of a listening socket.
#[derive(Debug, Clone, Copy, PartialEq, Eq, Structural)]
pub enum SocketState {
    Listening,
    AddressAlreadyInUse,
    PermissionDenied,
    AddressNotAvailable,
    Error,
    Unknown,
}

impl Default for SocketState {
    fn default() -> (r: SocketState)
        ensures
            r == SocketState::Unknown,
    {
        SocketState::Unknown
    }
}

/// Whether a TLS-terminating port has certificate material.
#[derive(Debug, Clone, Copy, PartialEq, Eq, Structural)]
pub enum TlsState {
    Active,
    NoCertificate,
}

/// The socket state and, for a TLS-terminating port, the TLS state.
#[derive(Debug, Clone, Copy, PartialEq, Eq)]
pub struct PortState {
    pub socket: SocketState,
    pub tls: Option<TlsState>,
}

/// A snapshot of a port's observable status.
#[derive(Debug, Clone, Copy, PartialEq, Eq)]
pub struct PortStatus {
    pub state: PortState,
    /// Seconds since the Unix epoch when the socket first reached `Listening`.
    pub started_at: Option<u64>,
}

/// The status of a port that has not been bound yet.
pub open spec fn initial_status() -> PortStatus {
    PortStatus { state: PortState { socket: SocketState::Unknown, tls: None }, started_at: None }
}

impl Default for PortStatus {
    fn default() -> (r: PortStatus)
        ensures
            r == initial_status(),
    {
        PortStatus { state: PortState { socket: SocketState::Unknown, tls: None }, started_at: None }
    }
}

/// What the accept loop reports back to its port.
#[derive(Debug, Clone, Copy, PartialEq, Eq)]
pub enum PortContextEvent {
    SocketStateUpdated(SocketState),
}

/// The status after `event`, where `now` is the time it is handled: the socket
/// state is replaced, and `started_at` is set on the first `Listening`.
pub open spec fn status_after(s: PortStatus, event: PortContextEvent, now: u64) -> PortStatus {
    match event {
        PortContextEvent::SocketStateUpdated(socket) => PortStatus {
            state: PortState { socket, tls: s.state.tls },
            started_at: if s.started_at is None && socket == SocketState::Listening {
                Some(now)
            } else {
                s.started_at
            },
        },
    }
}

/// The server names for which `entry` terminates TLS.
pub open spec fn server_names(entry: PortEntry) -> Seq<String> {
    match entry.port.opts.tls_termination {
        Some(t) => t.server_names@,
        None => Seq::empty(),
    }
}

/// `Active` when some certificate of `certs` covers one of `names`.
pub open spec fn tls_state_for(names: Seq<String>, certs: Seq<Cert>) -> TlsState {
    if exists|i: int| 0 <= i < names.len() && covers(certs, (#[trigger] names[i])@) {
        TlsState::Active
    } else {
        TlsState::NoCertificate
    }
}

/// The status after TLS material is gathered: only the TLS state changes.
pub open spec fn status_with_tls(s: PortStatus, tls_termination: bool, names: Seq<String>, certs: Seq<Cert>) -> PortStatus {
    PortStatus {
        state: PortState {
            socket: s.state.socket,
            tls: if tls_termination {
                Some(tls_state_for(names, certs))
            } else {
                None
            },
        },
        started_at: s.started_at,
    }
}

/// The runtime state of a TCP listener.
#[derive(Debug)]
pub struct TcpPortContext {
    pub listen: SocketAddr,
    pub tls_termination: bool,
    pub status: PortStatus,
}

/// Relies on `SystemTime::now` and `SystemTime::duration_since`: the current
/// wall-clock time in whole seconds since the Unix epoch (zero before it).
#[verifier::external_body]
fn now_secs() -> (r: u64) {
    match std::time::SystemTime::now().duration_since(std::time::UNIX_EPOCH) {
        Ok(d) => d.as_secs(),
        Err(_) => 0,
    }
}

impl TcpPortContext {
    /// A context for the entry's listen address, which must name an IP
    /// address and a TCP port.
    pub fn new(entry: &PortEntry) -> (r: Result<TcpPortContext, Error>)
        ensures
            r is Ok <==> first_ip(entry.port.listen@) is Some && first_port(entry.port.listen@) is Some,
            r is Ok ==> r->Ok_0.listen == (SocketAddr {
                ip: first_ip(entry.port.listen@)->0,
                port: first_port(entry.port.listen@)->0,
            }),
            r is Ok ==> r->Ok_0.tls_termination == entry.port.opts.tls_termination is Some,
            r is Ok ==> r->Ok_0.status == initial_status(),
            r is Err ==> is_invalid_multiaddr(r->Err_0, fmt_multiaddr(entry.port.listen@)),
    {
        let listen = entry.port.listen.socket_addr()?;
        let tls_termination = entry.port.opts.tls_termination.is_some();
        Ok(TcpPortContext { listen, tls_termination, status: PortStatus::default() })
    }

    /// Whether `new` keeps this context's socket: same address, same TLS termination.
    pub open spec fn same_socket(&self, new: &TcpPortContext) -> bool {
        self.listen == new.listen && self.tls_termination == new.tls_termination
    }

    /// Takes over `new`: the socket and its status are kept when the socket
    /// parameters are unchanged; otherwise the context is replaced and starts over.
    pub fn apply(&mut self, new: TcpPortContext)
        ensures
            old(self).same_socket(&new) ==> *final(self) == *old(self),
            !old(self).same_socket(&new) ==> *final(self) == new,
    {
        if self.listen == new.listen && self.tls_termination == new.tls_termination {
            return;
        }
        *self = new;
    }

    /// Handles an event at time `now`.
    pub fn event_at(&mut self, event: PortContextEvent, now: u64)
        ensures
            final(self).status == status_after(old(self).status, event, now),
            final(self).listen == old(self).listen,
            final(self).tls_termination == old(self).tls_termination,
    {
        match event {
            PortContextEvent::SocketStateUpdated(socket) => {
                self.status.state.socket = socket;
                if self.status.started_at.is_none() && socket == SocketState::Listening {
                    self.status.started_at = Some(now);
                }
            },
        }
    }

    /// Gathers TLS material for `names` from `certs`; the socket is not touched.
    pub fn setup(&mut self, names: &Vec<String>, certs: &Keyring)
        requires
            certs.wf(),
        ensures
            final(self).status == status_with_tls(old(self).status, old(self).tls_termination, names@, certs.certs()),
            final(self).listen == old(self).listen,
            final(self).tls_termination == old(self).tls_termination,
    {
        if !self.tls_termination {
            self.status.state.tls = None;
            return;
        }
        let mut i: usize = 0;
        while i < names.len()
            invariant
                *self == *old(self),
                self.tls_termination,
                certs.wf(),
                i <= names@.len(),
                forall|k: int| 0 <= k < i ==> !covers(certs.certs(), (#[trigger] names@[k])@),
            decreases names@.len() - i,
        {
            if certs.find_index_for_sni(names[i].as_str()).is_some() {
                self.status.state.tls = Some(TlsState::Active);
                return;
            }
            i += 1;
        }
        self.status.state.tls = Some(TlsState::NoCertificate);
    }

    pub fn status(&self) -> (r: &PortStatus)
        ensures
            *r == self.status,
    {
        &self.status
    }
}

/// The transport of a port.
#[derive(Debug)]
pub enum PortContextKind {
    Tcp(TcpPortContext),
}

/// The runtime twin of a port entry.
#[derive(Debug)]
pub struct PortContext {
    entry: PortEntry,
    kind: PortContextKind,
}

/// A port name is accepted when it has one to `MAX_NAME_LEN` characters.
pub open spec fn valid_name(name: Seq<char>) -> bool {
    1 <= name.len() <= MAX_NAME_LEN
}

impl PortContext {
    pub closed spec fn entry_spec(&self) -> PortEntry {
        self.entry
    }

    pub closed spec fn kind_spec(&self) -> PortContextKind {
        self.kind
    }

    pub open spec fn tcp(&self) -> TcpPortContext {
        match self.kind_spec() {
            PortContextKind::Tcp(t) => t,
        }
    }

    /// A context for `entry`: the name must have one to `MAX_NAME_LEN`
    /// characters, and the listen address must name an IP address and a port.
    pub fn new(entry: PortEntry) -> (r: Result<PortContext, Error>)
        ensures
            !valid_name(entry.name@) ==> r is Err && is_invalid_name(r->Err_0, entry.name@),
            valid_name(entry.name@) ==> (r is Ok <==> first_ip(entry.port.listen@) is Some
                && first_port(entry.port.listen@) is Some),
            valid_name(entry.name@) && r is Err ==> is_invalid_multiaddr(
                r->Err_0,
                fmt_multiaddr(entry.port.listen@),
            ),
            r is Ok ==> r->Ok_0.entry_spec() == entry,
            r is Ok ==> r->Ok_0.tcp().listen == (SocketAddr {
                ip: first_ip(entry.port.listen@)->0,
                port: first_port(entry.port.listen@)->0,
            }),
            r is Ok ==> r->Ok_0.tcp().tls_termination == entry.port.opts.tls_termination is Some,
            r is Ok ==> r->Ok_0.tcp().status == initial_status(),
    {
        let n = entry.name.as_str().unicode_len();
        if n == 0 || n > MAX_NAME_LEN {
            return Err(Error::InvalidName { name: entry.name });
        }
        let kind = PortContextKind::Tcp(TcpPortContext::new(&entry)?);
        Ok(PortContext { entry, kind })
    }

    pub fn entry(&self) -> (r: &PortEntry)
        ensures
            *r == self.entry_spec(),
    {
        &self.entry
    }

    pub fn kind(&self) -> (r: &PortContextKind)
        ensures
            *r == self.kind_spec(),
    {
        &self.kind
    }

    pub fn kind_mut(&mut self) -> (r: &mut PortContextKind)
        ensures
            *r == old(self).kind_spec(),
            final(self).kind_spec() == *final(r),
            final(self).entry_spec() == old(self).entry_spec(),
    {
        &mut self.kind
    }

    /// Takes over `new`'s entry; the socket and status are kept when the socket
    /// parameters are unchanged, and otherwise replaced by `new`'s.
    pub fn apply(&mut self, new: PortContext)
        ensures
            final(self).entry_spec() == new.entry_spec(),
            old(self).tcp().same_socket(&new.tcp()) ==> final(self).tcp() == old(self).tcp(),
            !old(self).tcp().same_socket(&new.tcp()) ==> final(self).tcp() == new.tcp(),
    {
        let PortContext { entry, kind } = new;
        match (&mut self.kind, kind) {
            (PortContextKind::Tcp(old), PortContextKind::Tcp(new)) => old.apply(new),
        }
        self.entry = entry;
    }

    /// Resolves the entry's listen address to a socket address and records
    /// whether TLS is terminated; the status is kept. Nothing is bound.
    pub fn prepare(&mut self) -> (r: Result<(), Error>)
        ensures
            r is Ok <==> first_ip(old(self).entry_spec().port.listen@) is Some && first_port(
                old(self).entry_spec().port.listen@,
            ) is Some,
            r is Ok ==> final(self).tcp().listen == (SocketAddr {
                ip: first_ip(old(self).entry_spec().port.listen@)->0,
                port: first_port(old(self).entry_spec().port.listen@)->0,
            }),
            r is Ok ==> final(self).tcp().tls_termination == old(self).entry_spec().port.opts.tls_termination is Some,
            r is Err ==> *final(self) == *old(self) && is_invalid_multiaddr(
                r->Err_0,
                fmt_multiaddr(old(self).entry_spec().port.listen@),
            ),
            final(self).tcp().status == old(self).tcp().status,
            final(self).entry_spec() == old(self).entry_spec(),
    {
        let listen = self.entry.port.listen.socket_addr()?;
        let tls_termination = self.entry.port.opts.tls_termination.is_some();
        match &mut self.kind {
            PortContextKind::Tcp(ctx) => {
                ctx.listen = listen;
                ctx.tls_termination = tls_termination;
            },
        }
        Ok(())
    }

    /// Gathers TLS material for the entry's server names from `certs`.
    pub fn setup(&mut self, certs: &Keyring)
        requires
            certs.wf(),
        ensures
            final(self).tcp().status == status_with_tls(
                old(self).tcp().status,
                old(self).tcp().tls_termination,
                server_names(old(self).entry_spec()),
                certs.certs(),
            ),
            final(self).tcp().listen == old(self).tcp().listen,
            final(self).tcp().tls_termination == old(self).tcp().tls_termination,
            final(self).entry_spec() == old(self).entry_spec(),
    {
        let empty: Vec<String> = Vec::new();
        let names = match &self.entry.port.opts.tls_termination {
            Some(t) => &t.server_names,
            None => &empty,
        };
        match &mut self.kind {
            PortContextKind::Tcp(ctx) => ctx.setup(names, certs),
        }
        proof {
            if self.entry.port.opts.tls_termination is None {
                assert(empty@ =~= server_names(self.entry));
            }
        }
    }

    /// Handles an event from the accept loop; `started_at` takes the current time.
    pub fn event(&mut self, event: PortContextEvent)
        ensures
            exists|now: u64| final(self).tcp().status == status_after(old(self).tcp().status, event, now),
            final(self).tcp().listen == old(self).tcp().listen,
            final(self).tcp().tls_termination == old(self).tcp().tls_termination,
            final(self).entry_spec() == old(self).entry_spec(),
    {
        let now = now_secs();
        self.event_at(event, now);
    }

    /// Handles an event from the accept loop at time `now`.
    pub fn event_at(&mut self, event: PortContextEvent, now: u64)
        ensures
            final(self).tcp().status == status_after(old(self).tcp().status, event, now),
            final(self).tcp().listen == old(self).tcp().listen,
            final(self).tcp().tls_termination == old(self).tcp().tls_termination,
            final(self).entry_spec() == old(self).entry_spec(),
    {
        match &mut self.kind {
            PortContextKind::Tcp(ctx) => ctx.event_at(event, now),
        }
    }

    pub fn status(&self) -> (r: &PortStatus)
        ensures
            *r == self.tcp().status,
    {
        match &self.kind {
            PortContextKind::Tcp(ctx) => ctx.status(),
        }
    }
}

} // verus!
