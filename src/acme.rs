use vstd::prelude::*;

use crate::text::{push_char, same_text};

verus! {

/// The path under which HTTP-01 challenge tokens are served.
pub open spec fn challenge_prefix() -> Seq<char> {
    "/.well-known/acme-challenge/"@
}

/// The token that `path` asks for, when it lies under the challenge prefix.
pub open spec fn challenge_token(path: Seq<char>) -> Option<Seq<char>> {
    let p = challenge_prefix();
    if path.len() >= p.len() && path.take(p.len() as int) == p {
        Some(path.skip(p.len() as int))
    } else {
        None
    }
}

/// The key authorization of the latest registration of `token`.
pub open spec fn key_for(entries: Seq<(String, String)>, token: Seq<char>) -> Option<Seq<char>>
    decreases entries.len(),
{
    if entries.len() == 0 {
        None
    } else if entries.last().0@ == token {
        Some(entries.last().1@)
    } else {
        key_for(entries.drop_last(), token)
    }
}

/// A response to an HTTP request.
#[derive(Debug, Clone, PartialEq, Eq)]
pub struct HttpResponse {
    pub status: u16,
    pub body: String,
}

/// The response to a challenge request for `token`: `200` with the key
/// authorization, or `404` with an empty body.
pub open spec fn challenge_response(entries: Seq<(String, String)>, token: Seq<char>) -> (u16, Seq<char>) {
    match key_for(entries, token) {
        Some(k) => (200u16, k),
        None => (404u16, Seq::empty()),
    }
}

/// The HTTP-01 challenge responder: pending tokens and their key authorizations.
#[derive(Debug)]
pub struct ChallengeResponder {
    tokens: Vec<(String, String)>,
    closed: bool,
}

/// The token that `path` asks for.
fn token_of(path: &str) -> (r: Option<String>)
    ensures
        r is Some <==> challenge_token(path@) is Some,
        r is Some ==> r->0@ == challenge_token(path@)->0,
{
    let prefix = "/.well-known/acme-challenge/";
    proof {
        reveal_strlit("/.well-known/acme-challenge/");
    }
    let np = prefix.unicode_len();
    let n = path.unicode_len();
    if n < np {
        return None;
    }
    let mut i: usize = 0;
    while i < np
        invariant
            np == prefix@.len(),
            prefix@ == challenge_prefix(),
            n == path@.len(),
            np <= n,
            i <= np,
            forall|k: int| 0 <= k < i ==> path@[k] == prefix@[k],
        decreases np - i,
    {
        if path.get_char(i) != prefix.get_char(i) {
            assert(path@.take(np as int)[i as int] != prefix@[i as int]);
            return None;
        }
        i += 1;
    }
    assert(path@.take(np as int) =~= prefix@);
    let mut token = String::new();
    let mut j: usize = np;
    while j < n
        invariant
            np <= j <= n,
            n == path@.len(),
            token@ == path@.subrange(np as int, j as int),
        decreases n - j,
    {
        push_char(&mut token, path.get_char(j));
        j += 1;
        assert(token@ =~= path@.subrange(np as int, j as int));
    }
    assert(token@ =~= path@.skip(np as int));
    Some(token)
}

proof fn lemma_key_for_push(entries: Seq<(String, String)>, e: (String, String), t: Seq<char>)
    ensures
        key_for(entries.push(e), t) == if e.0@ == t {
            Some(e.1@)
        } else {
            key_for(entries, t)
        },
{
    assert(entries.push(e).drop_last() =~= entries);
}

impl ChallengeResponder {
    pub closed spec fn entries(&self) -> Seq<(String, String)> {
        self.tokens@
    }

    pub closed spec fn is_closed(&self) -> bool {
        self.closed
    }

    /// An empty responder that takes registrations.
    pub fn new() -> (r: ChallengeResponder)
        ensures
            r.entries().len() == 0,
            !r.is_closed(),
    {
        ChallengeResponder { tokens: Vec::new(), closed: false }
    }

    /// Takes registrations again, as a new order begins.
    pub fn begin_order(&mut self)
        ensures
            final(self).entries() == old(self).entries(),
            !final(self).is_closed(),
    {
        self.closed = false;
    }

    /// Registers `token` with `key`, unless the responder is closed.
    pub fn insert(&mut self, token: String, key: String) -> (r: bool)
        ensures
            r == !old(self).is_closed(),
            final(self).is_closed() == old(self).is_closed(),
            r ==> key_for(final(self).entries(), token@) == Some(key@),
            r ==> forall|t: Seq<char>|
                t != token@ ==> #[trigger] key_for(final(self).entries(), t) == key_for(old(self).entries(), t),
            !r ==> final(self).entries() == old(self).entries(),
    {
        if self.closed {
            return false;
        }
        let ghost before = self.tokens@;
        let ghost tv = token@;
        let ghost kv = key@;
        self.tokens.push((token, key));
        proof {
            let e = self.tokens@.last();
            assert(self.tokens@ == before.push(e));
            lemma_key_for_push(before, e, tv);
            assert forall|t: Seq<char>| t != tv implies #[trigger] key_for(self.tokens@, t) == key_for(before, t) by {
                lemma_key_for_push(before, e, t);
            }
        }
        true
    }

    /// Forgets the registration of `token`, as its order has ended.
    pub fn remove(&mut self, token: &str)
        ensures
            key_for(final(self).entries(), token@) is None,
            forall|t: Seq<char>|
                t != token@ ==> #[trigger] key_for(final(self).entries(), t) == key_for(old(self).entries(), t),
            final(self).is_closed() == old(self).is_closed(),
    {
        let mut kept: Vec<(String, String)> = Vec::new();
        let mut i: usize = 0;
        while i < self.tokens.len()
            invariant
                i <= self.tokens@.len(),
                key_for(kept@, token@) is None,
                forall|t: Seq<char>|
                    t != token@ ==> #[trigger] key_for(kept@, t) == key_for(self.tokens@.take(i as int), t),
            decreases self.tokens@.len() - i,
        {
            let ghost before = kept@;
            let e = &self.tokens[i];
            assert(self.tokens@.take(i + 1) =~= self.tokens@.take(i as int).push(*e));
            if !same_text(e.0.as_str(), token) {
                let c = (e.0.clone(), e.1.clone());
                kept.push(c);
                proof {
                    lemma_key_for_push(before, c, token@);
                    assert forall|t: Seq<char>| t != token@ implies #[trigger] key_for(kept@, t) == key_for(
                        self.tokens@.take(i + 1),
                        t,
                    ) by {
                        lemma_key_for_push(before, c, t);
                        lemma_key_for_push(self.tokens@.take(i as int), *e, t);
                    }
                }
            } else {
                proof {
                    assert forall|t: Seq<char>| t != token@ implies #[trigger] key_for(kept@, t) == key_for(
                        self.tokens@.take(i + 1),
                        t,
                    ) by {
                        lemma_key_for_push(self.tokens@.take(i as int), *e, t);
                    }
                }
            }
            i += 1;
        }
        assert(self.tokens@.take(i as int) =~= self.tokens@);
        self.tokens = kept;
    }

    /// Forgets every registration and closes the responder until the next order.
    pub fn stop(&mut self)
        ensures
            final(self).entries().len() == 0,
            final(self).is_closed(),
    {
        self.tokens = Vec::new();
        self.closed = true;
    }

    /// The key authorization registered for `token`.
    pub fn lookup(&self, token: &str) -> (r: Option<String>)
        ensures
            r is Some <==> key_for(self.entries(), token@) is Some,
            r is Some ==> r->0@ == key_for(self.entries(), token@)->0,
    {
        let mut i: usize = self.tokens.len();
        assert(self.tokens@.take(i as int) =~= self.tokens@);
        while i > 0
            invariant
                i <= self.tokens@.len(),
                key_for(self.entries(), token@) == key_for(self.tokens@.take(i as int), token@),
            decreases i,
        {
            assert(self.tokens@.take(i as int).drop_last() =~= self.tokens@.take(i - 1));
            if same_text(self.tokens[i - 1].0.as_str(), token) {
                return Some(self.tokens[i - 1].1.clone());
            }
            i -= 1;
        }
        None
    }

    /// The response to a request for `path` when it lies under the challenge
    /// prefix; `None` when it does not.
    pub fn respond(&self, path: &str) -> (r: Option<HttpResponse>)
        ensures
            r is Some <==> challenge_token(path@) is Some,
            r is Some ==> (r->0.status, r->0.body@) == challenge_response(
                self.entries(),
                challenge_token(path@)->0,
            ),
    {
        match token_of(path) {
            Some(token) => match self.lookup(token.as_str()) {
                Some(key) => Some(HttpResponse { status: 200, body: key }),
                None => Some(HttpResponse { status: 404, body: String::new() }),
            },
            None => None,
        }
    }
}

} // verus!
