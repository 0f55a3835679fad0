use vstd::prelude::*;

use crate::error::{is_invalid_multiaddr, Error};
use crate::ip::{fmt_ip, ip4_at, ip6_at, parse_ip4, parse_ip6, parse_port, port_at, push_ip, push_port, dec_digits, IpAddr};
use crate::text::{chars_of, find_char, first_index, push_char, range_is, slice_of, string_of};

verus! {

/// One layer of a listener address.
#[derive(Debug, Clone, PartialEq, Eq)]
pub enum Protocol {
    Dns(String),
    Ip(IpAddr),
    Tcp(u16),
    Tls,
    Http(String),
}

/// A protocol layer as a mathematical value.
pub enum ProtocolView {
    Dns(Seq<char>),
    Ip(IpAddr),
    Tcp(u16),
    Tls,
    Http(Seq<char>),
}

impl View for Protocol {
    type V = ProtocolView;

    open spec fn view(&self) -> ProtocolView {
        match self {
            Protocol::Dns(h) => ProtocolView::Dns(h@),
            Protocol::Ip(a) => ProtocolView::Ip(*a),
            Protocol::Tcp(p) => ProtocolView::Tcp(*p),
            Protocol::Tls => ProtocolView::Tls,
            Protocol::Http(p) => ProtocolView::Http(p@),
        }
    }
}

/// A listener address: a sequence of protocol layers, such as
/// `/ip4/127.0.0.1/tcp/8080/https`.
#[derive(Debug, Clone, PartialEq, Eq)]
pub struct Multiaddr {
    protocols: Vec<Protocol>,
}

/// A socket address: an IP address and a port.
#[derive(Debug, Clone, Copy, PartialEq, Eq, Structural)]
pub struct SocketAddr {
    pub ip: IpAddr,
    pub port: u16,
}

pub open spec fn views_of(v: Seq<Protocol>) -> Seq<ProtocolView> {
    v.map_values(|p: Protocol| p@)
}

impl View for Multiaddr {
    type V = Seq<ProtocolView>;

    closed spec fn view(&self) -> Seq<ProtocolView> {
        views_of(self.protocols@)
    }
}

/// Where the segment that starts at `pos` ends: the next `/` or the end.
pub open spec fn seg_end(s: Seq<char>, pos: int) -> int {
    pos + first_index(s.subrange(pos, s.len() as int), '/')
}

/// Where the text after a segment that ends at `e` starts.
pub open spec fn after(s: Seq<char>, e: int) -> int {
    if e < s.len() {
        e + 1
    } else {
        s.len() as int
    }
}

/// The index of the first character at or after `pos` that is not `/`.
pub open spec fn skip_slashes(s: Seq<char>, pos: int) -> int
    decreases s.len() - pos,
{
    if 0 <= pos < s.len() && s[pos] == '/' {
        skip_slashes(s, pos + 1)
    } else {
        pos
    }
}

pub open spec fn prefix_with(
    done: Seq<ProtocolView>,
    r: Option<Seq<ProtocolView>>,
) -> Option<Seq<ProtocolView>> {
    match r {
        Some(rest) => Some(done + rest),
        None => None,
    }
}

/// The layers that the text from `pos` on describes; `None` when an `ip4`,
/// `ip6` or `tcp` value does not parse. Unknown tokens are skipped.
pub open spec fn parse_from(s: Seq<char>, pos: int) -> Option<Seq<ProtocolView>>
    decreases s.len() - pos,
{
    if pos < 0 || pos >= s.len() {
        Some(Seq::empty())
    } else {
        let e = seg_end(s, pos);
        let tok = s.subrange(pos, e);
        let next = after(s, e);
        let e2 = seg_end(s, next);
        let value = s.subrange(next, e2);
        if tok == "dns"@ {
            prefix_with(seq![ProtocolView::Dns(value)], parse_from(s, after(s, e2)))
        } else if tok == "ip4"@ {
            match parse_ip4(value) {
                Some(a) => prefix_with(seq![ProtocolView::Ip(a)], parse_from(s, after(s, e2))),
                None => None,
            }
        } else if tok == "ip6"@ {
            match parse_ip6(value) {
                Some(a) => prefix_with(seq![ProtocolView::Ip(a)], parse_from(s, after(s, e2))),
                None => None,
            }
        } else if tok == "tcp"@ {
            match parse_port(value) {
                Some(p) => prefix_with(seq![ProtocolView::Tcp(p)], parse_from(s, after(s, e2))),
                None => None,
            }
        } else if tok == "tls"@ {
            prefix_with(seq![ProtocolView::Tls], parse_from(s, next))
        } else if tok == "http"@ {
            Some(seq![ProtocolView::Http(seq!['/'] + s.subrange(next, s.len() as int))])
        } else if tok == "https"@ {
            Some(
                seq![ProtocolView::Tls, ProtocolView::Http(seq!['/'] + s.subrange(next, s.len() as int))],
            )
        } else {
            parse_from(s, next)
        }
    }
}

/// The layers that the text `s` describes, after its leading slashes.
pub open spec fn parse_multiaddr(s: Seq<char>) -> Option<Seq<ProtocolView>> {
    parse_from(s, skip_slashes(s, 0))
}

pub open spec fn has_tls(m: Seq<ProtocolView>) -> bool {
    exists|i: int| 0 <= i < m.len() && (#[trigger] m[i]) is Tls
}

pub open spec fn has_http(m: Seq<ProtocolView>) -> bool {
    exists|i: int| 0 <= i < m.len() && (#[trigger] m[i]) is Http
}

/// The text of one layer, given whether the whole address has an HTTP layer
/// and a TLS layer.
pub open spec fn fmt_layer(p: ProtocolView, http: bool, tls: bool) -> Seq<char> {
    match p {
        ProtocolView::Dns(h) => "/dns/"@ + h,
        ProtocolView::Ip(a) => match a {
            IpAddr::V4(..) => "/ip4/"@ + fmt_ip(a),
            IpAddr::V6(..) => "/ip6/"@ + fmt_ip(a),
        },
        ProtocolView::Tcp(port) => "/tcp/"@ + dec_digits(port as nat),
        ProtocolView::Tls => if http {
            Seq::empty()
        } else {
            "/tls"@
        },
        ProtocolView::Http(path) => {
            let suffix = if path == "/"@ || path.len() == 0 {
                Seq::empty()
            } else {
                path
            };
            if tls {
                "/https"@ + suffix
            } else {
                "/http"@ + suffix
            }
        },
    }
}

pub open spec fn fmt_layers(m: Seq<ProtocolView>, http: bool, tls: bool) -> Seq<char>
    decreases m.len(),
{
    if m.len() == 0 {
        Seq::empty()
    } else {
        fmt_layers(m.drop_last(), http, tls) + fmt_layer(m.last(), http, tls)
    }
}

/// The text form of an address: a TLS layer with an HTTP layer prints as
/// `/https`, and an HTTP path of `/` prints as nothing.
pub open spec fn fmt_multiaddr(m: Seq<ProtocolView>) -> Seq<char> {
    fmt_layers(m, has_http(m), has_tls(m))
}

pub open spec fn first_ip(m: Seq<ProtocolView>) -> Option<IpAddr>
    decreases m.len(),
{
    if m.len() == 0 {
        None
    } else {
        match m[0] {
            ProtocolView::Ip(a) => Some(a),
            _ => first_ip(m.drop_first()),
        }
    }
}

pub open spec fn first_port(m: Seq<ProtocolView>) -> Option<u16>
    decreases m.len(),
{
    if m.len() == 0 {
        None
    } else {
        match m[0] {
            ProtocolView::Tcp(p) => Some(p),
            _ => first_port(m.drop_first()),
        }
    }
}

/// The host of the first `dns` or IP layer, as text.
pub open spec fn first_host(m: Seq<ProtocolView>) -> Option<Seq<char>>
    decreases m.len(),
{
    if m.len() == 0 {
        None
    } else {
        match m[0] {
            ProtocolView::Dns(h) => Some(h),
            ProtocolView::Ip(a) => Some(fmt_ip(a)),
            _ => first_host(m.drop_first()),
        }
    }
}

pub open spec fn protocol_name_of(m: Seq<ProtocolView>) -> Seq<char> {
    if has_http(m) && has_tls(m) {
        "HTTPS"@
    } else if has_http(m) {
        "HTTP"@
    } else if has_tls(m) {
        "TCP over TLS"@
    } else {
        "TCP"@
    }
}

pub proof fn lemma_skip_slashes(s: Seq<char>, pos: int, j: int)
    requires
        0 <= pos <= j <= s.len(),
        forall|k: int| pos <= k < j ==> s[k] == '/',
        j == s.len() || s[j] != '/',
    ensures
        skip_slashes(s, pos) == j,
    decreases j - pos,
{
    if pos < j {
        lemma_skip_slashes(s, pos + 1, j);
    }
}

/// Appends the characters of `s` from `lo` up to `hi`.
fn push_range(out: &mut String, s: &Vec<char>, lo: usize, hi: usize)
    requires
        lo <= hi <= s.len(),
    ensures
        final(out)@ == old(out)@ + slice_of(s@, lo as int, hi as int),
{
    let mut i: usize = lo;
    while i < hi
        invariant
            lo <= i <= hi <= s.len(),
            out@ == old(out)@ + slice_of(s@, lo as int, i as int),
        decreases hi - i,
    {
        push_char(out, s[i]);
        i += 1;
        assert(out@ =~= old(out)@ + slice_of(s@, lo as int, i as int));
    }
}

proof fn lemma_prefix_assoc(a: Seq<ProtocolView>, b: Seq<ProtocolView>, r: Option<Seq<ProtocolView>>)
    ensures
        prefix_with(a, prefix_with(b, r)) == prefix_with(a + b, r),
{
    if r is Some {
        assert((a + b) + r->0 =~= a + (b + r->0));
    }
}

/// Whether an HTTP path prints as nothing: it is `/` or empty.
fn is_root_path(p: &String) -> (r: bool)
    ensures
        r == (p@ == "/"@ || p@.len() == 0),
{
    proof {
        reveal_strlit("/");
    }
    let n = p.as_str().unicode_len();
    if n == 0 {
        true
    } else if n == 1 && p.as_str().get_char(0) == '/' {
        assert(p@ =~= "/"@);
        true
    } else {
        false
    }
}

fn invalid_multiaddr(s: &str) -> (e: Error)
    ensures
        is_invalid_multiaddr(e, s@),
{
    Error::InvalidMultiaddr { addr: s.to_owned() }
}

impl Multiaddr {
    /// Parses a listener address. Unknown tokens are skipped; an `ip4`, `ip6`
    /// or `tcp` value that does not parse makes the whole text invalid.
    pub fn parse(s: &str) -> (r: Result<Multiaddr, Error>)
        ensures
            parse_multiaddr(s@) is Some ==> r is Ok && r->Ok_0@ == parse_multiaddr(s@)->0,
            parse_multiaddr(s@) is None ==> r is Err && is_invalid_multiaddr(r->Err_0, s@),
    {
        let cs = chars_of(s);
        let n = cs.len();
        let mut start: usize = 0;
        while start < n && cs[start] == '/'
            invariant
                start <= n == cs@.len(),
                forall|k: int| 0 <= k < start ==> cs@[k] == '/',
            decreases n - start,
        {
            start += 1;
        }
        proof {
            lemma_skip_slashes(cs@, 0, start as int);
        }
        let mut pos: usize = start;
        let mut out: Vec<Protocol> = Vec::new();
        loop
            invariant
                pos <= n == cs@.len(),
                cs@ == s@,
                parse_multiaddr(s@) == prefix_with(views_of(out@), parse_from(cs@, pos as int)),
            decreases n - pos,
        {
            let ghost old_out = views_of(out@);
            let ghost old_pos = pos as int;
            let ghost mut added: Seq<ProtocolView> = Seq::empty();
            if pos >= n {
                assert(views_of(out@) + Seq::empty() =~= views_of(out@));
                return Ok(Multiaddr { protocols: out });
            }
            let e = find_char(&cs, pos, n, '/');
            let next: usize = if e < n {
                e + 1
            } else {
                n
            };
            let e2 = find_char(&cs, next, n, '/');
            let next2: usize = if e2 < n {
                e2 + 1
            } else {
                n
            };
            assert(e == seg_end(cs@, pos as int));
            assert(e2 == seg_end(cs@, next as int));
            if range_is(&cs, pos, e, "dns") {
                let h = string_of(&cs, next, e2);
                proof {
                    added = seq![ProtocolView::Dns(h@)];
                }
                out.push(Protocol::Dns(h));
                pos = next2;
            } else if range_is(&cs, pos, e, "ip4") {
                match ip4_at(&cs, next, e2) {
                    Some(a) => {
                        proof {
                            added = seq![ProtocolView::Ip(a)];
                        }
                        out.push(Protocol::Ip(a));
                        pos = next2;
                    },
                    None => {
                        return Err(invalid_multiaddr(s));
                    },
                }
            } else if range_is(&cs, pos, e, "ip6") {
                match ip6_at(&cs, next, e2) {
                    Some(a) => {
                        proof {
                            added = seq![ProtocolView::Ip(a)];
                        }
                        out.push(Protocol::Ip(a));
                        pos = next2;
                    },
                    None => {
                        return Err(invalid_multiaddr(s));
                    },
                }
            } else if range_is(&cs, pos, e, "tcp") {
                match port_at(&cs, next, e2) {
                    Some(p) => {
                        proof {
                            added = seq![ProtocolView::Tcp(p)];
                        }
                        out.push(Protocol::Tcp(p));
                        pos = next2;
                    },
                    None => {
                        return Err(invalid_multiaddr(s));
                    },
                }
            } else if range_is(&cs, pos, e, "tls") {
                proof {
                    added = seq![ProtocolView::Tls];
                }
                out.push(Protocol::Tls);
                pos = next;
            } else if range_is(&cs, pos, e, "http") {
                let mut path = String::new();
                push_char(&mut path, '/');
                push_range(&mut path, &cs, next, n);
                proof {
                    added = seq![ProtocolView::Http(path@)];
                }
                out.push(Protocol::Http(path));
                pos = n;
            } else if range_is(&cs, pos, e, "https") {
                out.push(Protocol::Tls);
                let mut path = String::new();
                push_char(&mut path, '/');
                push_range(&mut path, &cs, next, n);
                proof {
                    added = seq![ProtocolView::Tls, ProtocolView::Http(path@)];
                }
                out.push(Protocol::Http(path));
                pos = n;
            } else {
                pos = next;
            }
            proof {
                assert(views_of(out@) =~= old_out + added);
                if pos == n {
                    assert(added + Seq::empty() =~= added);
                }
                assert(Seq::empty() + added =~= added);
                assert(parse_from(cs@, old_pos) == prefix_with(added, parse_from(cs@, pos as int)));
                lemma_prefix_assoc(old_out, added, parse_from(cs@, pos as int));
            }
        }
    }

    /// Whether the address has a TLS layer.
    pub fn is_tls(&self) -> (r: bool)
        ensures
            r == has_tls(self@),
    {
        let mut i: usize = 0;
        while i < self.protocols.len()
            invariant
                i <= self.protocols@.len(),
                forall|k: int| 0 <= k < i ==> !(#[trigger] self@[k] is Tls),
            decreases self.protocols@.len() - i,
        {
            if let Protocol::Tls = &self.protocols[i] {
                assert(self@[i as int] is Tls);
                return true;
            }
            i += 1;
        }
        false
    }

    /// Whether the address has an HTTP layer.
    pub fn is_http(&self) -> (r: bool)
        ensures
            r == has_http(self@),
    {
        let mut i: usize = 0;
        while i < self.protocols.len()
            invariant
                i <= self.protocols@.len(),
                forall|k: int| 0 <= k < i ==> !(#[trigger] self@[k] is Http),
            decreases self.protocols@.len() - i,
        {
            if let Protocol::Http(_) = &self.protocols[i] {
                assert(self@[i as int] is Http);
                return true;
            }
            i += 1;
        }
        false
    }

    /// The text form of the address.
    pub fn to_string(&self) -> (r: String)
        ensures
            r@ == fmt_multiaddr(self@),
    {
        let http = self.is_http();
        let tls = self.is_tls();
        let mut out = String::new();
        let mut i: usize = 0;
        while i < self.protocols.len()
            invariant
                i <= self.protocols@.len(),
                http == has_http(self@),
                tls == has_tls(self@),
                out@ == fmt_layers(self@.take(i as int), http, tls),
            decreases self.protocols@.len() - i,
        {
            let ghost before = out@;
            match &self.protocols[i] {
                Protocol::Dns(h) => {
                    out.append("/dns/");
                    out.append(h.as_str());
                },
                Protocol::Ip(a) => {
                    match a {
                        IpAddr::V4(..) => out.append("/ip4/"),
                        IpAddr::V6(..) => out.append("/ip6/"),
                    }
                    push_ip(&mut out, *a);
                },
                Protocol::Tcp(p) => {
                    out.append("/tcp/");
                    push_port(&mut out, *p);
                },
                Protocol::Tls => {
                    if !http {
                        out.append("/tls");
                    }
                },
                Protocol::Http(path) => {
                    if tls {
                        out.append("/https");
                    } else {
                        out.append("/http");
                    }
                    if !is_root_path(path) {
                        out.append(path.as_str());
                    }
                },
            }
            proof {
                assert(self@.take(i + 1).drop_last() =~= self@.take(i as int));
                assert(self@.take(i + 1).last() == self@[i as int]);
                assert(out@ =~= before + fmt_layer(self@[i as int], http, tls));
            }
            i += 1;
        }
        assert(self@.take(i as int) =~= self@);
        out
    }

    /// The address of the first IP layer.
    pub fn ip_addr(&self) -> (r: Result<IpAddr, Error>)
        ensures
            r is Ok <==> first_ip(self@) is Some,
            r is Ok ==> r->Ok_0 == first_ip(self@)->0,
            r is Err ==> is_invalid_multiaddr(r->Err_0, fmt_multiaddr(self@)),
    {
        let mut i: usize = 0;
        assert(self@.skip(0) =~= self@);
        while i < self.protocols.len()
            invariant
                i <= self.protocols@.len(),
                first_ip(self@) == first_ip(self@.skip(i as int)),
            decreases self.protocols@.len() - i,
        {
            assert(self@.skip(i as int)[0] == self@[i as int]);
            assert(self@.skip(i as int).drop_first() =~= self@.skip(i + 1));
            if let Protocol::Ip(a) = &self.protocols[i] {
                return Ok(*a);
            }
            i += 1;
        }
        Err(Error::InvalidMultiaddr { addr: self.to_string() })
    }

    /// The port of the first TCP layer.
    pub fn port(&self) -> (r: Result<u16, Error>)
        ensures
            r is Ok <==> first_port(self@) is Some,
            r is Ok ==> r->Ok_0 == first_port(self@)->0,
            r is Err ==> is_invalid_multiaddr(r->Err_0, fmt_multiaddr(self@)),
    {
        let mut i: usize = 0;
        assert(self@.skip(0) =~= self@);
        while i < self.protocols.len()
            invariant
                i <= self.protocols@.len(),
                first_port(self@) == first_port(self@.skip(i as int)),
            decreases self.protocols@.len() - i,
        {
            assert(self@.skip(i as int)[0] == self@[i as int]);
            assert(self@.skip(i as int).drop_first() =~= self@.skip(i + 1));
            if let Protocol::Tcp(p) = &self.protocols[i] {
                return Ok(*p);
            }
            i += 1;
        }
        Err(Error::InvalidMultiaddr { addr: self.to_string() })
    }

    /// The host of the first `dns` or IP layer, as text.
    pub fn host(&self) -> (r: Result<String, Error>)
        ensures
            r is Ok <==> first_host(self@) is Some,
            r is Ok ==> r->Ok_0@ == first_host(self@)->0,
            r is Err ==> is_invalid_multiaddr(r->Err_0, fmt_multiaddr(self@)),
    {
        let mut i: usize = 0;
        assert(self@.skip(0) =~= self@);
        while i < self.protocols.len()
            invariant
                i <= self.protocols@.len(),
                first_host(self@) == first_host(self@.skip(i as int)),
            decreases self.protocols@.len() - i,
        {
            assert(self@.skip(i as int)[0] == self@[i as int]);
            assert(self@.skip(i as int).drop_first() =~= self@.skip(i + 1));
            match &self.protocols[i] {
                Protocol::Dns(h) => {
                    return Ok(h.clone());
                },
                Protocol::Ip(a) => {
                    let mut out = String::new();
                    push_ip(&mut out, *a);
                    assert(out@ =~= fmt_ip(*a));
                    return Ok(out);
                },
                _ => {},
            }
            i += 1;
        }
        Err(Error::InvalidMultiaddr { addr: self.to_string() })
    }

    /// The IP address and port of the first IP layer and TCP layer.
    pub fn socket_addr(&self) -> (r: Result<SocketAddr, Error>)
        ensures
            r is Ok <==> first_ip(self@) is Some && first_port(self@) is Some,
            r is Ok ==> r->Ok_0 == (SocketAddr {
                ip: first_ip(self@)->0,
                port: first_port(self@)->0,
            }),
            r is Err ==> is_invalid_multiaddr(r->Err_0, fmt_multiaddr(self@)),
    {
        let ip = self.ip_addr()?;
        let port = self.port()?;
        Ok(SocketAddr { ip, port })
    }

    /// `HTTPS`, `HTTP`, `TCP over TLS` or `TCP`, by the HTTP and TLS layers.
    pub fn protocol_name(&self) -> (r: &'static str)
        ensures
            r@ == protocol_name_of(self@),
    {
        let http = self.is_http();
        let tls = self.is_tls();
        if http && tls {
            "HTTPS"
        } else if http {
            "HTTP"
        } else if tls {
            "TCP over TLS"
        } else {
            "TCP"
        }
    }
}

impl std::str::FromStr for Multiaddr {
    type Err = Error;

    /// Parses a listener address, as `Multiaddr::parse` does.
    fn from_str(s: &str) -> (r: Result<Multiaddr, Error>)
        ensures
            parse_multiaddr(s@) is Some ==> r is Ok && r->Ok_0@ == parse_multiaddr(s@)->0,
            parse_multiaddr(s@) is None ==> r is Err && is_invalid_multiaddr(r->Err_0, s@),
    {
        Multiaddr::parse(s)
    }
}

/// The value that follows the segment at `pos`.
pub open spec fn value_after(s: Seq<char>, pos: int) -> Seq<char> {
    let next = after(s, seg_end(s, pos));
    s.subrange(next, seg_end(s, next))
}

/// The text of the segment at `pos`.
pub open spec fn token_at(s: Seq<char>, pos: int) -> Seq<char> {
    s.subrange(pos, seg_end(s, pos))
}

/// A `tcp` layer whose value is no 16-bit number, an `ip4` layer whose value
/// is no IPv4 address, or an `ip6` layer whose value is no IPv6 address makes
/// the text from that layer on invalid.
pub proof fn lemma_bad_value_rejected(s: Seq<char>, pos: int)
    requires
        0 <= pos < s.len(),
        (token_at(s, pos) == "tcp"@ && parse_port(value_after(s, pos)) is None) || (token_at(s, pos)
            == "ip4"@ && parse_ip4(value_after(s, pos)) is None) || (token_at(s, pos) == "ip6"@
            && parse_ip6(value_after(s, pos)) is None),
    ensures
        parse_from(s, pos) is None,
{
    reveal_strlit("dns");
    reveal_strlit("ip4");
    reveal_strlit("ip6");
    reveal_strlit("tcp");
    let tok = token_at(s, pos);
    assert(tok.len() == 3);
    if tok == "tcp"@ {
        assert(tok[0] == 't');
        assert(tok != "dns"@ && tok != "ip4"@ && tok != "ip6"@) by {
            assert("dns"@[0] == 'd');
            assert("ip4"@[0] == 'i');
            assert("ip6"@[0] == 'i');
        }
    } else if tok == "ip4"@ {
        assert(tok[0] == 'i');
        assert(tok[2] == '4');
        assert(tok != "dns"@) by {
            assert("dns"@[0] == 'd');
        }
    } else {
        assert(tok == "ip6"@);
        assert(tok[2] == '6');
        assert(tok != "dns"@ && tok != "ip4"@) by {
            assert("dns"@[0] == 'd');
            assert("ip4"@[2] == '4');
        }
    }
}

} // verus!