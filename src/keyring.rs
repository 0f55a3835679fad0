use vstd::prelude::*;

use crate::text::same_text;

verus! {

/// A certificate: its subject names, validity window and a stable id.
#[derive(Debug, Clone, PartialEq, Eq)]
pub struct Cert {
    pub id: String,
    pub subjects: Vec<String>,
    /// Seconds since the Unix epoch.
    pub not_before: u64,
    /// Seconds since the Unix epoch.
    pub not_after: u64,
}

/// Lexicographic order of character sequences.
pub open spec fn lex_lt(a: Seq<char>, b: Seq<char>) -> bool
    decreases a.len(),
{
    if a.len() == 0 {
        b.len() > 0
    } else if b.len() == 0 {
        false
    } else if a[0] != b[0] {
        a[0] < b[0]
    } else {
        lex_lt(a.drop_first(), b.drop_first())
    }
}

/// `pattern` is `*.` followed by a suffix, and `name` is one label that holds
/// no dot followed by `.` and that suffix.
pub open spec fn wildcard_match(pattern: Seq<char>, name: Seq<char>) -> bool {
    let suffix = pattern.skip(1);
    &&& pattern.len() >= 2
    &&& pattern[0] == '*'
    &&& pattern[1] == '.'
    &&& name.len() > suffix.len()
    &&& name.skip(name.len() - suffix.len()) == suffix
    &&& forall|k: int| 0 <= k < name.len() - suffix.len() ==> #[trigger] name[k] != '.'
}

/// How well a subject covers a server name: 2 exactly, 1 by a wildcard, 0 not at all.
pub open spec fn subject_rank(subject: Seq<char>, name: Seq<char>) -> nat {
    if subject == name {
        2
    } else if wildcard_match(subject, name) {
        1
    } else {
        0
    }
}

/// The best rank of any subject of `c` for `name`.
pub open spec fn rank_from(subjects: Seq<String>, name: Seq<char>) -> nat
    decreases subjects.len(),
{
    if subjects.len() == 0 {
        0
    } else {
        let r = subject_rank(subjects.last()@, name);
        let rest = rank_from(subjects.drop_last(), name);
        if r > rest {
            r
        } else {
            rest
        }
    }
}

pub open spec fn cert_rank(c: Cert, name: Seq<char>) -> nat {
    rank_from(c.subjects@, name)
}

/// `a` is preferred to `b` for `name`: a better match, then the later
/// `not_before`, then the smaller id.
pub open spec fn preferred(a: Cert, b: Cert, name: Seq<char>) -> bool {
    ||| cert_rank(a, name) > cert_rank(b, name)
    ||| cert_rank(a, name) == cert_rank(b, name) && a.not_before > b.not_before
    ||| cert_rank(a, name) == cert_rank(b, name) && a.not_before == b.not_before && lex_lt(
        a.id@,
        b.id@,
    )
}

/// The certificates, keyed by id; each id occurs once.
#[derive(Debug, Clone)]
pub struct Keyring {
    certs: Vec<Cert>,
}

/// Whether some certificate of `certs` covers `name`.
pub open spec fn covers(certs: Seq<Cert>, name: Seq<char>) -> bool {
    exists|j: int| 0 <= j < certs.len() && cert_rank(#[trigger] certs[j], name) > 0
}

proof fn lemma_lex_lt_irreflexive(a: Seq<char>)
    ensures
        !lex_lt(a, a),
    decreases a.len(),
{
    if a.len() > 0 {
        lemma_lex_lt_irreflexive(a.drop_first());
    }
}

/// Compares two strings lexicographically.
fn less_than(a: &String, b: &String) -> (r: bool)
    ensures
        r == lex_lt(a@, b@),
{
    let sa = a.as_str();
    let sb = b.as_str();
    let na = sa.unicode_len();
    let nb = sb.unicode_len();
    let mut i: usize = 0;
    assert(a@.skip(0) =~= a@);
    assert(b@.skip(0) =~= b@);
    while i < na && i < nb
        invariant
            sa@ == a@,
            sb@ == b@,
            na == a@.len(),
            nb == b@.len(),
            i <= na,
            i <= nb,
            lex_lt(a@, b@) == lex_lt(a@.skip(i as int), b@.skip(i as int)),
        decreases na - i,
    {
        let ca = sa.get_char(i);
        let cb = sb.get_char(i);
        assert(a@.skip(i as int)[0] == ca);
        assert(b@.skip(i as int)[0] == cb);
        if ca != cb {
            return ca < cb;
        }
        assert(a@.skip(i as int).drop_first() =~= a@.skip(i + 1));
        assert(b@.skip(i as int).drop_first() =~= b@.skip(i + 1));
        i += 1;
    }
    i < nb
}

fn wildcard_matches(pattern: &str, name: &str) -> (r: bool)
    ensures
        r == wildcard_match(pattern@, name@),
{
    let np = pattern.unicode_len();
    let nn = name.unicode_len();
    if np < 2 || pattern.get_char(0) != '*' || pattern.get_char(1) != '.' {
        return false;
    }
    let ls = np - 1;
    if nn <= ls {
        return false;
    }
    let d = nn - ls;
    let ghost suffix = pattern@.skip(1);
    let mut i: usize = 0;
    while i < ls
        invariant
            np == pattern@.len(),
            nn == name@.len(),
            ls == np - 1,
            d == nn - ls,
            suffix == pattern@.skip(1),
            i <= ls,
            forall|k: int| 0 <= k < i ==> name@[d + k] == suffix[k],
        decreases ls - i,
    {
        if name.get_char(d + i) != pattern.get_char(i + 1) {
            assert(name@.skip(d as int)[i as int] != suffix[i as int]);
            return false;
        }
        i += 1;
    }
    assert(name@.skip(d as int) =~= suffix);
    let mut j: usize = 0;
    while j < d
        invariant
            nn == name@.len(),
            np == pattern@.len(),
            np >= 2,
            pattern@[0] == '*',
            pattern@[1] == '.',
            ls == np - 1,
            d == nn - ls,
            suffix == pattern@.skip(1),
            name@.skip(d as int) == suffix,
            d <= nn,
            j <= d,
            forall|k: int| 0 <= k < j ==> #[trigger] name@[k] != '.',
        decreases d - j,
    {
        if name.get_char(j) == '.' {
            assert(name@[j as int] == '.');
            assert(suffix.len() == ls);
            return false;
        }
        j += 1;
    }
    true
}

fn subject_rank_of(subject: &String, name: &str) -> (r: u8)
    ensures
        r as nat == subject_rank(subject@, name@),
{
    if same_text(subject.as_str(), name) {
        2
    } else if wildcard_matches(subject.as_str(), name) {
        1
    } else {
        0
    }
}

fn rank_of(c: &Cert, name: &str) -> (r: u8)
    ensures
        r as nat == cert_rank(*c, name@),
        r <= 2,
{
    let mut best: u8 = 0;
    let mut i: usize = 0;
    while i < c.subjects.len()
        invariant
            i <= c.subjects@.len(),
            best as nat == rank_from(c.subjects@.take(i as int), name@),
            best <= 2,
        decreases c.subjects@.len() - i,
    {
        let r = subject_rank_of(&c.subjects[i], name);
        assert(c.subjects@.take(i + 1).drop_last() =~= c.subjects@.take(i as int));
        if r > best {
            best = r;
        }
        i += 1;
    }
    assert(c.subjects@.take(i as int) =~= c.subjects@);
    best
}

impl Cert {
    /// Whether the certificate expires within `window` seconds of `now`.
    pub fn renewal_due(&self, now: u64, window: u64) -> (r: bool)
        ensures
            r == (self.not_after <= now as int + window as int),
    {
        self.not_after <= now || self.not_after - now <= window
    }
}

impl Keyring {
    pub closed spec fn certs(&self) -> Seq<Cert> {
        self.certs@
    }

    /// Each id occurs once.
    pub open spec fn wf(&self) -> bool {
        forall|i: int, j: int|
            0 <= i < self.certs().len() && 0 <= j < self.certs().len() && i != j
                ==> #[trigger] self.certs()[i].id@ != #[trigger] self.certs()[j].id@
    }

    pub fn new() -> (r: Keyring)
        ensures
            r.wf(),
            r.certs().len() == 0,
    {
        Keyring { certs: Vec::new() }
    }

    /// Adds `cert` unless a certificate with its id is already there.
    pub fn insert(&mut self, cert: Cert)
        requires
            old(self).wf(),
        ensures
            final(self).wf(),
            (exists|i: int| 0 <= i < old(self).certs().len() && #[trigger] old(self).certs()[i].id@ == cert.id@)
                ==> final(self).certs() == old(self).certs(),
            !(exists|i: int| 0 <= i < old(self).certs().len() && #[trigger] old(self).certs()[i].id@ == cert.id@)
                ==> final(self).certs() == old(self).certs().push(cert),
    {
        if self.position(&cert.id).is_some() {
            return;
        }
        self.certs.push(cert);
    }

    /// The index of the certificate with id `id`.
    pub fn position(&self, id: &String) -> (r: Option<usize>)
        ensures
            r is None <==> !(exists|i: int| 0 <= i < self.certs().len() && #[trigger] self.certs()[i].id@ == id@),
            r is Some ==> r->0 < self.certs().len() && self.certs()[r->0 as int].id@ == id@,
    {
        let mut i: usize = 0;
        while i < self.certs.len()
            invariant
                i <= self.certs@.len(),
                forall|k: int| 0 <= k < i ==> #[trigger] self.certs@[k].id@ != id@,
            decreases self.certs@.len() - i,
        {
            if same_text(self.certs[i].id.as_str(), id.as_str()) {
                assert(self.certs()[i as int].id@ == id@);
                return Some(i);
            }
            i += 1;
        }
        None
    }

    /// The certificate with id `id`.
    pub fn get(&self, id: &String) -> (r: Option<&Cert>)
        ensures
            r is None <==> !(exists|i: int| 0 <= i < self.certs().len() && #[trigger] self.certs()[i].id@ == id@),
            r is Some ==> exists|i: int| 0 <= i < self.certs().len() && self.certs()[i] == *r->0 && #[trigger] self.certs()[i].id@ == id@,
    {
        match self.position(id) {
            Some(i) => Some(&self.certs[i]),
            None => None,
        }
    }

    /// The index of the certificate to serve for `name`: one that covers it,
    /// with none preferred to it.
    pub fn find_index_for_sni(&self, name: &str) -> (r: Option<usize>)
        requires
            self.wf(),
        ensures
            r is None <==> !covers(self.certs(), name@),
            r is Some ==> r->0 < self.certs().len() && cert_rank(self.certs()[r->0 as int], name@) > 0,
            r is Some ==> forall|j: int|
                0 <= j < self.certs().len() && cert_rank(#[trigger] self.certs()[j], name@) > 0
                    ==> !preferred(self.certs()[j], self.certs()[r->0 as int], name@),
    {
        let mut best: Option<usize> = None;
        let mut i: usize = 0;
        while i < self.certs.len()
            invariant
                self.wf(),
                i <= self.certs@.len(),
                best is None <==> !(exists|j: int| 0 <= j < i && cert_rank(#[trigger] self.certs@[j], name@) > 0),
                best is Some ==> best->0 < i && cert_rank(self.certs@[best->0 as int], name@) > 0,
                best is Some ==> forall|j: int|
                    0 <= j < i && cert_rank(#[trigger] self.certs@[j], name@) > 0 ==> !preferred(
                        self.certs@[j],
                        self.certs@[best->0 as int],
                        name@,
                    ),
            decreases self.certs@.len() - i,
        {
            let r = rank_of(&self.certs[i], name);
            if r > 0 {
                match best {
                    None => {
                        proof {
                            lemma_lex_lt_irreflexive(self.certs@[i as int].id@);
                        }
                        best = Some(i);
                    },
                    Some(b) => {
                        let rb = rank_of(&self.certs[b], name);
                        let ci = &self.certs[i];
                        let cb = &self.certs[b];
                        let better = r > rb || (r == rb && ci.not_before > cb.not_before) || (r
                            == rb && ci.not_before == cb.not_before && less_than(&ci.id, &cb.id));
                        if better {
                            proof {
                                assert forall|j: int|
                                    0 <= j < i + 1 && cert_rank(#[trigger] self.certs@[j], name@)
                                        > 0 implies !preferred(
                                    self.certs@[j],
                                    self.certs@[i as int],
                                    name@,
                                ) by {
                                    lemma_prefer_order(self.certs@[j], self.certs@[b as int], self.certs@[i as int], name@);
                                    if j == i {
                                        lemma_lex_lt_irreflexive(self.certs@[j].id@);
                                    }
                                }
                            }
                            best = Some(i);
                        }
                    },
                }
            }
            i += 1;
        }
        best
    }

    /// The index of the certificate to serve for `name`, as
    /// `find_index_for_sni` picks it, and whether it is due for renewal:
    /// it expires within `window` seconds of `now`.
    pub fn find_for_sni_renewal(&self, name: &str, now: u64, window: u64) -> (r: Option<(usize, bool)>)
        requires
            self.wf(),
        ensures
            r is None <==> !covers(self.certs(), name@),
            r is Some ==> (r->0).0 < self.certs().len() && cert_rank(self.certs()[(r->0).0 as int], name@) > 0,
            r is Some ==> forall|j: int|
                0 <= j < self.certs().len() && cert_rank(#[trigger] self.certs()[j], name@) > 0
                    ==> !preferred(self.certs()[j], self.certs()[(r->0).0 as int], name@),
            r is Some ==> (r->0).1 == (self.certs()[(r->0).0 as int].not_after <= now as int + window as int),
    {
        match self.find_index_for_sni(name) {
            Some(i) => Some((i, self.certs[i].renewal_due(now, window))),
            None => None,
        }
    }

    /// The certificate to serve for `name`: exact subjects before wildcards,
    /// then the latest `not_before`, then the smallest id.
    pub fn find_for_sni(&self, name: &str) -> (r: Option<&Cert>)
        requires
            self.wf(),
        ensures
            r is None <==> !covers(self.certs(), name@),
            r is Some ==> exists|i: int|
                0 <= i < self.certs().len() && self.certs()[i] == *r->0 && cert_rank(#[trigger] self.certs()[i], name@) > 0
                    && forall|j: int|
                    0 <= j < self.certs().len() && cert_rank(#[trigger] self.certs()[j], name@) > 0
                        ==> !preferred(self.certs()[j], self.certs()[i], name@),
    {
        match self.find_index_for_sni(name) {
            Some(i) => Some(&self.certs[i]),
            None => None,
        }
    }
}

proof fn lemma_lex_lt_trans(a: Seq<char>, b: Seq<char>, c: Seq<char>)
    requires
        lex_lt(a, b),
        lex_lt(b, c),
    ensures
        lex_lt(a, c),
    decreases a.len(),
{
    if a.len() > 0 && b.len() > 0 && c.len() > 0 && a[0] == b[0] && b[0] == c[0] {
        lemma_lex_lt_trans(a.drop_first(), b.drop_first(), c.drop_first());
    }
}

/// Preference is transitive, and `b` being preferred to `c` rules out `c` being preferred to `b`.
proof fn lemma_prefer_order(a: Cert, b: Cert, c: Cert, name: Seq<char>)
    requires
        preferred(c, b, name),
    ensures
        !preferred(a, b, name) ==> !preferred(a, c, name),
{
    if preferred(a, c, name) {
        if lex_lt(a.id@, c.id@) && lex_lt(c.id@, b.id@) {
            lemma_lex_lt_trans(a.id@, c.id@, b.id@);
        }
    }
}

} // verus!
