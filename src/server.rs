use vstd::prelude::*;

use crate::acme::{challenge_response, challenge_token, ChallengeResponder, HttpResponse};
use crate::error::{is_invalid_multiaddr, is_invalid_name, Error};
use crate::acme::{challenge_prefix, key_for};
use crate::keyring::{cert_rank, covers, rank_from, subject_rank, Cert, Keyring};
use crate::multiaddr::{first_ip, first_port, fmt_multiaddr, SocketAddr};
use crate::port::PortEntry;
use crate::text::same_text;
use crate::proxy::{
    status_after, valid_name, PortContextEvent, initial_status, server_names, status_with_tls, tls_state_for, PortContext, PortStatus,
    TcpPortContext, TlsState,
};

verus! {

/// A command to the supervisor. `M` is the erased method that a caller asks
/// the supervisor to run.
#[derive(Debug)]
pub enum ServerCommand<M> {
    AddCert { cert: Cert },
    SetBroadcastEvents { enabled: bool },
    StopHttpChallenges,
    CallMethod { id: usize, arg: M },
}

/// Where a request goes.
#[derive(Debug, Clone, PartialEq, Eq)]
pub enum Dispatch {
    /// Answered by the challenge responder.
    Respond(HttpResponse),
    /// Sent to the route with this index.
    Route(usize),
    NotFound,
}

/// The context that `PortContext::new` makes for a valid `entry`.
pub open spec fn fresh_tcp(entry: PortEntry) -> TcpPortContext {
    TcpPortContext {
        listen: SocketAddr { ip: first_ip(entry.port.listen@)->0, port: first_port(entry.port.listen@)->0 },
        tls_termination: entry.port.opts.tls_termination is Some,
        status: initial_status(),
    }
}

/// `PortContext::new` accepts `entry`.
pub open spec fn entry_valid(entry: PortEntry) -> bool {
    valid_name(entry.name@) && first_ip(entry.port.listen@) is Some && first_port(entry.port.listen@) is Some
}

/// `e` is the error that `PortContext::new` reports for `entry`.
pub open spec fn reports(e: Error, entry: PortEntry) -> bool {
    if !valid_name(entry.name@) {
        is_invalid_name(e, entry.name@)
    } else {
        is_invalid_multiaddr(e, fmt_multiaddr(entry.port.listen@))
    }
}

proof fn lemma_taken_push(ports: Seq<PortContext>, p: PortContext)
    ensures
        id_taken(ports.push(p), port_id(p)),
        forall|id: Seq<char>| id_taken(ports, id) ==> #[trigger] id_taken(ports.push(p), id),
{
    assert(ports.push(p)[ports.len() as int] == p);
    assert forall|id: Seq<char>| id_taken(ports, id) implies #[trigger] id_taken(ports.push(p), id) by {
        let k = choose|k: int| 0 <= k < ports.len() && port_id(#[trigger] ports[k]) == id;
        assert(ports.push(p)[k] == ports[k]);
    }
}

/// `entries[i]` is valid and no valid entry before it has its id.
pub open spec fn first_valid(entries: Seq<PortEntry>, i: int) -> bool {
    &&& entry_valid(entries[i])
    &&& forall|i2: int|
        0 <= i2 < i && entry_valid(#[trigger] entries[i2]) ==> entries[i2].id@ != entries[i].id@
}

/// `p` terminates TLS as its entry says, and its TLS state is the one
/// gathered from `certs` for the entry's server names.
pub open spec fn tls_gathered(p: PortContext, certs: Seq<Cert>) -> bool {
    &&& p.tcp().tls_termination == p.entry_spec().port.opts.tls_termination is Some
    &&& p.tcp().status.state.tls == if p.tcp().tls_termination {
        Some(tls_state_for(server_names(p.entry_spec()), certs))
    } else {
        None
    }
}

/// `a` holds the socket of `b`: the same address, socket state and start time.
pub open spec fn keeps_socket(a: TcpPortContext, b: TcpPortContext) -> bool {
    &&& a.listen == b.listen
    &&& a.tls_termination == b.tls_termination
    &&& a.status.state.socket == b.status.state.socket
    &&& a.status.started_at == b.status.started_at
}

pub open spec fn port_id(p: PortContext) -> Seq<char> {
    p.entry_spec().id@
}

/// Some port of `ports` has id `id`.
pub open spec fn id_taken(ports: Seq<PortContext>, id: Seq<char>) -> bool {
    exists|k: int| 0 <= k < ports.len() && port_id(#[trigger] ports[k]) == id
}

/// `p` is one of `ports`.
pub open spec fn holds(ports: Seq<PortContext>, p: PortContext) -> bool {
    exists|r: int| 0 <= r < ports.len() && #[trigger] ports[r] == p
}

pub open spec fn ids_unique(ports: Seq<PortContext>) -> bool {
    forall|a: int, b: int|
        0 <= a < ports.len() && 0 <= b < ports.len() && a != b ==> port_id(#[trigger] ports[a])
            != port_id(#[trigger] ports[b])
}

/// The index of the first route whose path prefix `path` starts with.
pub open spec fn route_for(routes: Seq<String>, path: Seq<char>) -> Option<int>
    decreases routes.len(),
{
    if routes.len() == 0 {
        None
    } else {
        match route_for(routes.drop_last(), path) {
            Some(i) => Some(i),
            None => if routes.last()@.len() <= path.len() && path.take(routes.last()@.len() as int)
                == routes.last()@ {
                Some(routes.len() - 1)
            } else {
                None
            },
        }
    }
}

/// The owner of the port contexts, the keyring and the challenge responder.
#[derive(Debug)]
pub struct Supervisor {
    ports: Vec<PortContext>,
    certs: Keyring,
    challenges: ChallengeResponder,
    broadcast_events: bool,
}

fn starts_with(path: &str, prefix: &str) -> (r: bool)
    ensures
        r == (prefix@.len() <= path@.len() && path@.take(prefix@.len() as int) == prefix@),
{
    let n = prefix.unicode_len();
    if n > path.unicode_len() {
        return false;
    }
    let mut i: usize = 0;
    while i < n
        invariant
            n == prefix@.len(),
            n <= path@.len(),
            i <= n,
            forall|k: int| 0 <= k < i ==> path@[k] == prefix@[k],
        decreases n - i,
    {
        if path.get_char(i) != prefix.get_char(i) {
            assert(path@.take(n as int)[i as int] != prefix@[i as int]);
            return false;
        }
        i += 1;
    }
    assert(path@.take(n as int) =~= prefix@);
    true
}

/// The index of the port in `ports` with id `id`.
fn find_port(ports: &Vec<PortContext>, id: &String) -> (r: Option<usize>)
    ensures
        r is None ==> forall|k: int| 0 <= k < ports@.len() ==> port_id(#[trigger] ports@[k]) != id@,
        r is Some ==> r->0 < ports@.len() && port_id(ports@[r->0 as int]) == id@,
{
    let mut i: usize = 0;
    while i < ports.len()
        invariant
            i <= ports@.len(),
            forall|k: int| 0 <= k < i ==> port_id(#[trigger] ports@[k]) != id@,
        decreases ports@.len() - i,
    {
        if same_text(ports[i].entry().id.as_str(), id.as_str()) {
            return Some(i);
        }
        i += 1;
    }
    None
}

/// `new` is `old` after `cert` was added: the keyring takes the certificate
/// unless its id is there already, every port gathers its TLS material again,
/// and nothing else changes.
pub open spec fn added_cert(old: Supervisor, new: Supervisor, cert: Cert) -> bool {
    &&& new.keyring().certs() == old.keyring().certs() || new.keyring().certs()
            == old.keyring().certs().push(cert)
    &&& !(exists|i: int| 0 <= i < old.keyring().certs().len() && #[trigger] old.keyring().certs()[i].id@ == cert.id@)
            ==> new.keyring().certs() == old.keyring().certs().push(cert)
    &&& new.ports().len() == old.ports().len()
    &&& forall|k: int|
            0 <= k < new.ports().len() ==> {
                let p = #[trigger] new.ports()[k];
                let q = old.ports()[k];
                &&& p.entry_spec() == q.entry_spec()
                &&& p.tcp().listen == q.tcp().listen
                &&& p.tcp().tls_termination == q.tcp().tls_termination
                &&& p.tcp().status == status_with_tls(
                    q.tcp().status,
                    q.tcp().tls_termination,
                    server_names(q.entry_spec()),
                    new.keyring().certs(),
                )
            }
    &&& new.responder() == old.responder()
    &&& new.broadcasts() == old.broadcasts()
}

impl Supervisor {
    pub closed spec fn ports(&self) -> Seq<PortContext> {
        self.ports@
    }

    pub closed spec fn keyring(&self) -> Keyring {
        self.certs
    }

    pub closed spec fn responder(&self) -> ChallengeResponder {
        self.challenges
    }

    pub closed spec fn broadcasts(&self) -> bool {
        self.broadcast_events
    }

    pub open spec fn wf(&self) -> bool {
        self.keyring().wf() && ids_unique(self.ports())
    }

    pub fn new() -> (r: Supervisor)
        ensures
            r.wf(),
            r.ports().len() == 0,
            r.keyring().certs().len() == 0,
            r.responder().entries().len() == 0,
            r.broadcasts(),
    {
        Supervisor {
            ports: Vec::new(),
            certs: Keyring::new(),
            challenges: ChallengeResponder::new(),
            broadcast_events: true,
        }
    }

    pub fn ports_list(&self) -> (r: &Vec<PortContext>)
        ensures
            r@ == self.ports(),
    {
        &self.ports
    }

    pub fn challenges_mut(&mut self) -> (r: &mut ChallengeResponder)
        ensures
            *r == old(self).responder(),
            final(self).responder() == *final(r),
            final(self).ports() == old(self).ports(),
            final(self).keyring() == old(self).keyring(),
            final(self).broadcasts() == old(self).broadcasts(),
    {
        &mut self.challenges
    }

    /// Adds `cert` to the keyring and gathers TLS material again for every
    /// port; no socket is touched.
    pub fn add_cert(&mut self, cert: Cert)
        requires
            old(self).wf(),
        ensures
            final(self).wf(),
            added_cert(*old(self), *final(self), cert),
    {
        self.certs.insert(cert);
        let mut i: usize = 0;
        while i < self.ports.len()
            invariant
                self.certs.wf(),
                self.certs.certs() == old(self).keyring().certs() || self.certs.certs() == old(
                    self,
                ).keyring().certs().push(cert),
                !(exists|j: int| 0 <= j < old(self).keyring().certs().len() && #[trigger] old(self).keyring().certs()[j].id@ == cert.id@)
                    ==> self.certs.certs() == old(self).keyring().certs().push(cert),
                i <= self.ports@.len(),
                self.ports@.len() == old(self).ports().len(),
                self.challenges == old(self).responder(),
                self.broadcast_events == old(self).broadcasts(),
                forall|k: int|
                    0 <= k < self.ports@.len() ==> {
                        let p = #[trigger] self.ports@[k];
                        let q = old(self).ports()[k];
                        &&& p.entry_spec() == q.entry_spec()
                        &&& p.tcp().listen == q.tcp().listen
                        &&& p.tcp().tls_termination == q.tcp().tls_termination
                        &&& k < i ==> p.tcp().status == status_with_tls(
                            q.tcp().status,
                            q.tcp().tls_termination,
                            server_names(q.entry_spec()),
                            self.certs.certs(),
                        )
                        &&& k >= i ==> p.tcp().status == q.tcp().status
                    },
            decreases self.ports@.len() - i,
        {
            let mut p = self.ports.remove(i);
            p.setup(&self.certs);
            self.ports.insert(i, p);
            i += 1;
        }
        proof {
            assert forall|a: int, b: int|
                0 <= a < self.ports@.len() && 0 <= b < self.ports@.len() && a != b implies port_id(
                #[trigger] self.ports@[a],
            ) != port_id(#[trigger] self.ports@[b]) by {
                assert(port_id(self.ports@[a]) == port_id(old(self).ports()[a]));
                assert(port_id(self.ports@[b]) == port_id(old(self).ports()[b]));
            }
        }
    }

    /// Hands an accept-loop event for the port with id `id` to that port,
    /// handled at time `now`; returns whether there is such a port.
    pub fn port_event(&mut self, id: &String, event: PortContextEvent, now: u64) -> (r: bool)
        requires
            old(self).wf(),
        ensures
            final(self).wf(),
            r == id_taken(old(self).ports(), id@),
            final(self).ports().len() == old(self).ports().len(),
            forall|k: int|
                0 <= k < final(self).ports().len() ==> {
                    let p = #[trigger] final(self).ports()[k];
                    let q = old(self).ports()[k];
                    &&& p.entry_spec() == q.entry_spec()
                    &&& p.tcp().listen == q.tcp().listen
                    &&& p.tcp().tls_termination == q.tcp().tls_termination
                    &&& port_id(q) == id@ ==> p.tcp().status == status_after(q.tcp().status, event, now)
                    &&& port_id(q) != id@ ==> p == q
                },
            final(self).keyring() == old(self).keyring(),
            final(self).responder() == old(self).responder(),
            final(self).broadcasts() == old(self).broadcasts(),
    {
        match find_port(&self.ports, id) {
            Some(i) => {
                let ghost before = self.ports@;
                let mut p = self.ports.remove(i);
                p.event_at(event, now);
                self.ports.insert(i, p);
                proof {
                    assert forall|k: int| 0 <= k < before.len() && k != i implies port_id(before[k]) != id@ by {
                        assert(port_id(before[i as int]) == id@);
                    }
                    assert forall|a: int, b: int|
                        0 <= a < self.ports@.len() && 0 <= b < self.ports@.len() && a != b implies port_id(
                        #[trigger] self.ports@[a],
                    ) != port_id(#[trigger] self.ports@[b]) by {
                        assert(port_id(self.ports@[a]) == port_id(before[a]));
                        assert(port_id(self.ports@[b]) == port_id(before[b]));
                    }
                    assert(port_id(before[i as int]) == id@);
                }
                true
            },
            None => false,
        }
    }

    /// Replaces the port configuration with `entries`. Entries that fail
    /// validation are reported and skipped; of two entries with one id the
    /// first is taken. A port whose id stays takes over the new entry and keeps
    /// its socket where the socket parameters are unchanged; a new id gets a
    /// fresh port; the ports of ids that are gone are dropped.
    pub fn reconfigure(&mut self, entries: Vec<PortEntry>) -> (errors: Vec<Error>)
        requires
            old(self).wf(),
        ensures
            final(self).wf(),
            forall|i: int|
                0 <= i < entries@.len() && entry_valid(#[trigger] entries@[i]) ==> id_taken(
                    final(self).ports(),
                    entries@[i].id@,
                ),
            forall|i: int|
                0 <= i < entries@.len() && !entry_valid(#[trigger] entries@[i]) ==> exists|j: int|
                    0 <= j < errors@.len() && reports(#[trigger] errors@[j], entries@[i]),
            forall|k: int|
                0 <= k < final(self).ports().len() ==> exists|i: int|
                    0 <= i < entries@.len() && entries@[i] == (#[trigger] final(self).ports()[k]).entry_spec()
                        && first_valid(entries@, i),
            forall|k: int|
                0 <= k < final(self).ports().len() ==> tls_gathered(
                    #[trigger] final(self).ports()[k],
                    final(self).keyring().certs(),
                ),
            forall|k: int, j: int|
                0 <= k < final(self).ports().len() && 0 <= j < old(self).ports().len() && port_id(
                    #[trigger] final(self).ports()[k],
                ) == port_id(#[trigger] old(self).ports()[j]) && old(self).ports()[j].tcp().same_socket(
                    &fresh_tcp(final(self).ports()[k].entry_spec()),
                ) ==> keeps_socket(final(self).ports()[k].tcp(), old(self).ports()[j].tcp()),
            forall|k: int|
                0 <= k < final(self).ports().len() && (forall|j: int|
                    0 <= j < old(self).ports().len() ==> port_id(#[trigger] old(self).ports()[j])
                        != port_id(final(self).ports()[k])) ==> (#[trigger] final(self).ports()[k]).tcp().status.started_at is None,
            final(self).keyring() == old(self).keyring(),
            final(self).responder() == old(self).responder(),
            final(self).broadcasts() == old(self).broadcasts(),
    {
        let ghost orig = self.ports@;
        let ghost ents = entries@;
        let mut entries = entries;
        let mut errors: Vec<Error> = Vec::new();
        let mut out: Vec<PortContext> = Vec::new();
        let mut idx: usize = 0;
        assert forall|r: int| 0 <= r < self.ports@.len() implies holds(orig, #[trigger] self.ports@[r]) by {
            assert(orig[r] == self.ports@[r]);
        }
        assert(ents.skip(0) =~= ents);
        assert(ents.len() == entries.len());
        while entries.len() > 0
            invariant
                ents.len() <= usize::MAX,
                self.certs == old(self).keyring(),
                self.certs.wf(),
                self.challenges == old(self).responder(),
                self.broadcast_events == old(self).broadcasts(),
                orig == old(self).ports(),
                ids_unique(orig),
                idx <= ents.len(),
                idx + entries@.len() == ents.len(),
                entries@ == ents.skip(idx as int),
                forall|r: int| 0 <= r < self.ports@.len() ==> holds(orig, #[trigger] self.ports@[r]),
                forall|j: int|
                    0 <= j < orig.len() && !id_taken(out@, port_id(#[trigger] orig[j])) ==> holds(
                        self.ports@,
                        orig[j],
                    ),
                ids_unique(out@),
                forall|i: int|
                    0 <= i < idx && entry_valid(#[trigger] ents[i]) ==> id_taken(out@, ents[i].id@),
                forall|i: int|
                    0 <= i < idx && !entry_valid(#[trigger] ents[i]) ==> exists|j: int|
                        0 <= j < errors@.len() && reports(#[trigger] errors@[j], ents[i]),
                forall|k: int|
                    0 <= k < out@.len() ==> exists|i: int|
                        0 <= i < idx && ents[i] == (#[trigger] out@[k]).entry_spec() && first_valid(ents, i),
                forall|k: int| 0 <= k < out@.len() ==> tls_gathered(#[trigger] out@[k], self.certs.certs()),
                forall|k: int, j: int|
                    0 <= k < out@.len() && 0 <= j < orig.len() && port_id(#[trigger] out@[k])
                        == port_id(#[trigger] orig[j]) && orig[j].tcp().same_socket(
                        &fresh_tcp(out@[k].entry_spec()),
                    ) ==> keeps_socket(out@[k].tcp(), orig[j].tcp()),
                forall|k: int|
                    0 <= k < out@.len() && (forall|j: int|
                        0 <= j < orig.len() ==> port_id(#[trigger] orig[j]) != port_id(out@[k]))
                        ==> (#[trigger] out@[k]).tcp().status.started_at is None,
            decreases entries@.len(),
        {
            let e = entries.remove(0);
            assert(e == ents[idx as int]);
            assert(entries@ =~= ents.skip(idx + 1));
            let ghost ie = idx as int;
            idx += 1;
            match PortContext::new(e) {
                Err(err) => {
                    let ghost before = errors@;
                    errors.push(err);
                    proof {
                        assert(errors@[before.len() as int] == err);
                        assert forall|i: int|
                            0 <= i < idx && !entry_valid(#[trigger] ents[i]) implies exists|j: int|
                                0 <= j < errors@.len() && reports(#[trigger] errors@[j], ents[i]) by {
                            if i < ie {
                                let j = choose|j: int| 0 <= j < before.len() && reports(#[trigger] before[j], ents[i]);
                                assert(errors@[j] == before[j]);
                            }
                        }
                    }
                },
                Ok(fresh) => {
                    assert(fresh.tcp() == fresh_tcp(e));
                    let dup = find_port(&out, &fresh.entry().id);
                    if dup.is_some() {
                        assert(id_taken(out@, ents[ie].id@));
                    }
                    if dup.is_none() {
                        let ghost x = fresh.entry_spec().id@;
                        match find_port(&self.ports, &fresh.entry().id) {
                            Some(r) => {
                                let ghost rest = self.ports@;
                                let ghost j0 = choose|j: int| 0 <= j < orig.len() && #[trigger] orig[j] == rest[r as int];
                                let mut live = self.ports.remove(r);
                                live.apply(fresh);
                                live.setup(&self.certs);
                                proof {
                                    assert(port_id(orig[j0]) == x);
                                    assert forall|rr: int| 0 <= rr < self.ports@.len() implies holds(orig, #[trigger] self.ports@[rr]) by {
                                        if rr < r {
                                            assert(self.ports@[rr] == rest[rr]);
                                        } else {
                                            assert(self.ports@[rr] == rest[rr + 1]);
                                        }
                                    }
                                }
                                let ghost before = out@;
                                out.push(live);
                                proof {
                                    assert(first_valid(ents, ie)) by {
                                        assert forall|i2: int|
                                            0 <= i2 < ie && entry_valid(#[trigger] ents[i2]) implies ents[i2].id@ != ents[ie].id@ by {
                                            if ents[i2].id@ == ents[ie].id@ {
                                                let k2 = choose|k2: int| 0 <= k2 < before.len() && port_id(#[trigger] before[k2]) == ents[i2].id@;
                                            }
                                        }
                                    }
                                    assert(out@[before.len() as int] == live);
                                    assert forall|k: int| 0 <= k < out@.len() implies exists|i: int|
                                        0 <= i < idx && ents[i] == (#[trigger] out@[k]).entry_spec() && first_valid(ents, i) by {
                                        if k < before.len() {
                                            assert(out@[k] == before[k]);
                                        } else {
                                            assert(ents[ie] == out@[k].entry_spec());
                                        }
                                    }
                                    assert forall|k: int| 0 <= k < out@.len() implies tls_gathered(#[trigger] out@[k], self.certs.certs()) by {
                                        if k < before.len() {
                                            assert(out@[k] == before[k]);
                                        }
                                    }
                                    lemma_taken_push(before, live);
                                    assert(port_id(live) == ents[ie].id@);
                                    assert forall|j: int|
                                        0 <= j < orig.len() && !id_taken(out@, port_id(#[trigger] orig[j]))
                                        implies holds(self.ports@, orig[j]) by {
                                        if id_taken(before, port_id(orig[j])) {
                                            let k = choose|k: int| 0 <= k < before.len() && port_id(#[trigger] before[k]) == port_id(orig[j]);
                                            assert(out@[k] == before[k]);
                                        }
                                        assert(out@[before.len() as int] == live);
                                        let r0 = choose|rr: int| 0 <= rr < rest.len() && #[trigger] rest[rr] == orig[j];
                                        assert(r0 != r);
                                        if r0 < r {
                                            assert(self.ports@[r0] == orig[j]);
                                        } else {
                                            assert(self.ports@[r0 - 1] == orig[j]);
                                        }
                                    }
                                }
                            },
                            None => {
                                let mut f = fresh;
                                f.setup(&self.certs);
                                proof {
                                    assert forall|j: int| 0 <= j < orig.len() implies port_id(#[trigger] orig[j]) != x by {
                                        if port_id(orig[j]) == x {
                                            assert(!id_taken(out@, port_id(orig[j])));
                                            let r0 = choose|rr: int| 0 <= rr < self.ports@.len() && #[trigger] self.ports@[rr] == orig[j];
                                            assert(port_id(self.ports@[r0]) == x);
                                        }
                                    }
                                }
                                let ghost before = out@;
                                out.push(f);
                                proof {
                                    assert(first_valid(ents, ie)) by {
                                        assert forall|i2: int|
                                            0 <= i2 < ie && entry_valid(#[trigger] ents[i2]) implies ents[i2].id@ != ents[ie].id@ by {
                                            if ents[i2].id@ == ents[ie].id@ {
                                                let k2 = choose|k2: int| 0 <= k2 < before.len() && port_id(#[trigger] before[k2]) == ents[i2].id@;
                                            }
                                        }
                                    }
                                    assert(out@[before.len() as int] == f);
                                    assert forall|k: int| 0 <= k < out@.len() implies exists|i: int|
                                        0 <= i < idx && ents[i] == (#[trigger] out@[k]).entry_spec() && first_valid(ents, i) by {
                                        if k < before.len() {
                                            assert(out@[k] == before[k]);
                                        } else {
                                            assert(ents[ie] == out@[k].entry_spec());
                                        }
                                    }
                                    assert forall|k: int| 0 <= k < out@.len() implies tls_gathered(#[trigger] out@[k], self.certs.certs()) by {
                                        if k < before.len() {
                                            assert(out@[k] == before[k]);
                                        }
                                    }
                                    lemma_taken_push(before, f);
                                    assert(port_id(f) == ents[ie].id@);
                                    assert forall|j: int|
                                        0 <= j < orig.len() && !id_taken(out@, port_id(#[trigger] orig[j]))
                                        implies holds(self.ports@, orig[j]) by {
                                        if id_taken(before, port_id(orig[j])) {
                                            let k = choose|k: int| 0 <= k < before.len() && port_id(#[trigger] before[k]) == port_id(orig[j]);
                                            assert(out@[k] == before[k]);
                                        }
                                    }
                                }
                            },
                        }
                    }
                },
            }
        }
        self.ports = out;
        errors
    }

    /// Where a request for `path` goes: the challenge responder answers every
    /// path under the challenge prefix, before any route is consulted.
    pub fn dispatch(&self, path: &str, routes: &Vec<String>) -> (r: Dispatch)
        ensures
            challenge_token(path@) is Some ==> r is Respond && (r->Respond_0.status, r->Respond_0.body@)
                == challenge_response(self.responder().entries(), challenge_token(path@)->0),
            challenge_token(path@) is None && route_for(routes@, path@) is Some ==> r == Dispatch::Route(
                route_for(routes@, path@)->0 as usize,
            ),
            challenge_token(path@) is None && route_for(routes@, path@) is None ==> r
                == Dispatch::NotFound,
    {
        if let Some(resp) = self.challenges.respond(path) {
            return Dispatch::Respond(resp);
        }
        let mut i: usize = 0;
        while i < routes.len()
            invariant
                i <= routes@.len(),
                challenge_token(path@) is None,
                route_for(routes@.take(i as int), path@) is None,
            decreases routes@.len() - i,
        {
            let ghost t = routes@.take(i + 1);
            assert(t.drop_last() =~= routes@.take(i as int));
            if starts_with(path, routes[i].as_str()) {
                proof {
                    lemma_route_prefix(routes@, i as int + 1, path@);
                }
                return Dispatch::Route(i);
            }
            i += 1;
        }
        assert(routes@.take(i as int) =~= routes@);
        Dispatch::NotFound
    }

    /// One status event per port, `(id, status)` in port order, when events
    /// are broadcast; none when they are not.
    pub fn status_events(&self) -> (r: Vec<(String, PortStatus)>)
        ensures
            !self.broadcasts() ==> r@.len() == 0,
            self.broadcasts() ==> r@.len() == self.ports().len(),
            self.broadcasts() ==> forall|k: int|
                0 <= k < r@.len() ==> (#[trigger] r@[k]).0@ == port_id(self.ports()[k]) && r@[k].1
                    == self.ports()[k].tcp().status,
    {
        let mut out: Vec<(String, PortStatus)> = Vec::new();
        if !self.broadcast_events {
            return out;
        }
        let mut i: usize = 0;
        while i < self.ports.len()
            invariant
                self.broadcast_events,
                i <= self.ports@.len(),
                out@.len() == i,
                forall|k: int|
                    0 <= k < i ==> (#[trigger] out@[k]).0@ == port_id(self.ports@[k]) && out@[k].1
                        == self.ports@[k].tcp().status,
            decreases self.ports@.len() - i,
        {
            let p = &self.ports[i];
            out.push((p.entry().id.clone(), *p.status()));
            i += 1;
        }
        out
    }

    /// Handles one command. A method call is handed back to be run with its id.
    pub fn handle<M>(&mut self, cmd: ServerCommand<M>) -> (r: Option<(usize, M)>)
        requires
            old(self).wf(),
        ensures
            final(self).wf(),
            match cmd {
                ServerCommand::AddCert { cert } => r is None && added_cert(*old(self), *final(self), cert),
                ServerCommand::SetBroadcastEvents { enabled } => r is None && final(self).broadcasts() == enabled
                    && final(self).ports() == old(self).ports() && final(self).keyring() == old(self).keyring()
                    && final(self).responder() == old(self).responder(),
                ServerCommand::StopHttpChallenges => r is None && final(self).responder().entries().len() == 0
                    && final(self).responder().is_closed() && final(self).ports() == old(self).ports()
                    && final(self).keyring() == old(self).keyring() && final(self).broadcasts() == old(self).broadcasts(),
                ServerCommand::CallMethod { id, arg } => r == Some((id, arg)) && *final(self) == *old(self),
            },
    {
        match cmd {
            ServerCommand::AddCert { cert } => {
                self.add_cert(cert);
                None
            },
            ServerCommand::SetBroadcastEvents { enabled } => {
                self.broadcast_events = enabled;
                None
            },
            ServerCommand::StopHttpChallenges => {
                self.challenges.stop();
                None
            },
            ServerCommand::CallMethod { id, arg } => Some((id, arg)),
        }
    }
}

proof fn lemma_route_prefix(routes: Seq<String>, n: int, path: Seq<char>)
    requires
        1 <= n <= routes.len(),
        route_for(routes.take(n - 1), path) is None,
        routes[n - 1]@.len() <= path.len() && path.take(routes[n - 1]@.len() as int) == routes[n - 1]@,
    ensures
        route_for(routes, path) == Some(n - 1),
    decreases routes.len() - n,
{
    assert(routes.take(n).drop_last() =~= routes.take(n - 1));
    assert(routes.take(n).last() == routes[n - 1]);
    if n < routes.len() {
        lemma_route_found(routes, n, path, n - 1);
    } else {
        assert(routes.take(n) =~= routes);
    }
}

proof fn lemma_route_found(routes: Seq<String>, n: int, path: Seq<char>, i: int)
    requires
        1 <= n <= routes.len(),
        route_for(routes.take(n), path) == Some(i),
    ensures
        route_for(routes, path) == Some(i),
    decreases routes.len() - n,
{
    if n < routes.len() {
        assert(routes.take(n + 1).drop_last() =~= routes.take(n));
        lemma_route_found(routes, n + 1, path, i);
    } else {
        assert(routes.take(n) =~= routes);
    }
}

proof fn lemma_rank_at_least(subjects: Seq<String>, name: Seq<char>, j: int)
    requires
        0 <= j < subjects.len(),
    ensures
        rank_from(subjects, name) >= subject_rank(subjects[j]@, name),
    decreases subjects.len(),
{
    if j < subjects.len() - 1 {
        lemma_rank_at_least(subjects.drop_last(), name, j);
    }
}

/// Injecting a certificate one of whose subjects is a server name that a
/// TLS-terminating port declares makes the port's TLS state `Active` when its
/// TLS material is gathered again, and leaves its socket state and start time
/// as they were.
pub proof fn lemma_cert_injection_activates(
    status: PortStatus,
    names: Seq<String>,
    certs: Seq<Cert>,
    cert: Cert,
    i: int,
    j: int,
)
    requires
        0 <= i < names.len(),
        0 <= j < cert.subjects@.len(),
        cert.subjects@[j]@ == names[i]@,
    ensures
        status_with_tls(status, true, names, certs.push(cert)).state.tls == Some(TlsState::Active),
        status_with_tls(status, true, names, certs.push(cert)).state.socket == status.state.socket,
        status_with_tls(status, true, names, certs.push(cert)).started_at == status.started_at,
{
    lemma_rank_at_least(cert.subjects@, names[i]@, j);
    let all = certs.push(cert);
    assert(all[certs.len() as int] == cert);
    assert(cert_rank(all[certs.len() as int], names[i]@) > 0);
    assert(covers(all, names[i]@));
    assert(tls_state_for(names, all) == TlsState::Active);
}

/// A request for the challenge path of a registered token gets `200` and the
/// key authorization from the responder, whatever routes there are: the
/// responder answers before routing.
pub proof fn lemma_challenge_precedence(entries: Seq<(String, String)>, token: Seq<char>)
    requires
        key_for(entries, token) is Some,
    ensures
        challenge_token(challenge_prefix() + token) == Some(token),
        challenge_response(entries, challenge_token(challenge_prefix() + token)->0) == (
            200u16,
            key_for(entries, token)->0,
        ),
{
    let path = challenge_prefix() + token;
    assert(path.take(challenge_prefix().len() as int) =~= challenge_prefix());
    assert(path.skip(challenge_prefix().len() as int) =~= token);
}

} // verus!
