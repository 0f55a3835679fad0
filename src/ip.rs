use vstd::prelude::*;

use crate::text::{first_index, push_char, slice_of, split, split_ranges};

verus! {

/// An IP address: four octets, or eight 16-bit groups.
#[derive(Debug, Clone, Copy, PartialEq, Eq, Structural)]
pub enum IpAddr {
    V4(u8, u8, u8, u8),
    V6(u16, u16, u16, u16, u16, u16, u16, u16),
}

pub open spec fn is_digit(c: char) -> bool {
    '0' <= c && c <= '9'
}

pub open spec fn is_hex(c: char) -> bool {
    is_digit(c) || ('a' <= c && c <= 'f') || ('A' <= c && c <= 'F')
}

/// The value of a decimal or hexadecimal digit.
pub open spec fn digit_value(c: char) -> nat {
    if is_digit(c) {
        (c as int - '0' as int) as nat
    } else if 'a' <= c && c <= 'f' {
        (c as int - 'a' as int + 10) as nat
    } else {
        (c as int - 'A' as int + 10) as nat
    }
}

/// The number that the digits of `s` spell in base `base`.
pub open spec fn value_in(s: Seq<char>, base: nat) -> nat
    decreases s.len(),
{
    if s.len() == 0 {
        0
    } else {
        value_in(s.drop_last(), base) * base + digit_value(s.last())
    }
}

pub open spec fn all_digits(s: Seq<char>) -> bool {
    forall|i: int| 0 <= i < s.len() ==> is_digit(#[trigger] s[i])
}

pub open spec fn all_hex(s: Seq<char>) -> bool {
    forall|i: int| 0 <= i < s.len() ==> is_hex(#[trigger] s[i])
}

/// One to three decimal digits without a leading zero, at most 255.
pub open spec fn parse_octet(s: Seq<char>) -> Option<u8> {
    if 1 <= s.len() <= 3 && all_digits(s) && !(s.len() > 1 && s[0] == '0') && value_in(s, 10)
        <= 255 {
        Some(value_in(s, 10) as u8)
    } else {
        None
    }
}

/// A port number: an optional `+`, then decimal digits whose value fits in 16 bits.
pub open spec fn parse_port(s: Seq<char>) -> Option<u16> {
    let d = if s.len() > 0 && s[0] == '+' {
        s.drop_first()
    } else {
        s
    };
    if d.len() >= 1 && all_digits(d) && value_in(d, 10) <= 65535 {
        Some(value_in(d, 10) as u16)
    } else {
        None
    }
}

/// One to four hexadecimal digits, of either case.
pub open spec fn parse_group(s: Seq<char>) -> Option<u16> {
    if 1 <= s.len() <= 4 && all_hex(s) {
        Some(value_in(s, 16) as u16)
    } else {
        None
    }
}

/// Four octets separated by dots.
pub open spec fn parse_ip4(s: Seq<char>) -> Option<IpAddr> {
    let p = split(s, '.');
    if p.len() == 4 && parse_octet(p[0]) is Some && parse_octet(p[1]) is Some && parse_octet(
        p[2],
    ) is Some && parse_octet(p[3]) is Some {
        Some(
            IpAddr::V4(
                parse_octet(p[0])->0,
                parse_octet(p[1])->0,
                parse_octet(p[2])->0,
                parse_octet(p[3])->0,
            ),
        )
    } else {
        None
    }
}

pub open spec fn groups_ok(p: Seq<Seq<char>>) -> bool {
    forall|i: int| 0 <= i < p.len() ==> (#[trigger] parse_group(p[i])) is Some
}

pub open spec fn group_values(p: Seq<Seq<char>>) -> Seq<u16> {
    Seq::new(p.len(), |i: int| parse_group(p[i])->0)
}

/// The groups of a colon-separated list; the empty text is the empty list.
pub open spec fn groups_of(s: Seq<char>) -> Option<Seq<u16>> {
    if s.len() == 0 {
        Some(Seq::empty())
    } else if groups_ok(split(s, ':')) {
        Some(group_values(split(s, ':')))
    } else {
        None
    }
}

/// The groups that the last piece of a list stands for: one group, or an
/// IPv4 address as two groups.
pub open spec fn last_piece(q: Seq<char>) -> Option<Seq<u16>> {
    if parse_group(q) is Some {
        Some(seq![parse_group(q)->0])
    } else {
        match parse_ip4(q) {
            Some(IpAddr::V4(a, b, c, d)) => Some(
                seq![(a as int * 256 + b as int) as u16, (c as int * 256 + d as int) as u16],
            ),
            _ => None,
        }
    }
}

/// The groups of a colon-separated list whose last piece may be an IPv4
/// address; the empty text is the empty list.
pub open spec fn tail_groups_of(s: Seq<char>) -> Option<Seq<u16>> {
    let p = split(s, ':');
    if s.len() == 0 {
        Some(Seq::empty())
    } else if groups_ok(p.drop_last()) && last_piece(p.last()) is Some {
        Some(group_values(p.drop_last()) + last_piece(p.last())->0)
    } else {
        None
    }
}

/// Index of the first `::` in `s`, or `s.len()` when there is none.
pub open spec fn double_colon(s: Seq<char>) -> nat
    decreases s.len(),
{
    if s.len() < 2 {
        s.len()
    } else if s[0] == ':' && s[1] == ':' {
        0
    } else {
        1 + double_colon(s.drop_first())
    }
}

pub open spec fn zeros(n: nat) -> Seq<u16> {
    Seq::new(n, |i: int| 0u16)
}

pub open spec fn v6_of(g: Seq<u16>) -> IpAddr {
    IpAddr::V6(g[0], g[1], g[2], g[3], g[4], g[5], g[6], g[7])
}

pub open spec fn groups_of_v6(a: IpAddr) -> Seq<u16> {
    match a {
        IpAddr::V6(a0, a1, a2, a3, a4, a5, a6, a7) => seq![a0, a1, a2, a3, a4, a5, a6, a7],
        IpAddr::V4(..) => Seq::empty(),
    }
}

/// Eight groups separated by colons, or fewer with one `::` standing for the
/// zero groups that are left out; the last two groups may be written as an
/// IPv4 address.
pub open spec fn parse_ip6(s: Seq<char>) -> Option<IpAddr> {
    let k = double_colon(s);
    if k < s.len() {
        let l = groups_of(s.take(k as int));
        let r = tail_groups_of(s.skip((k + 2) as int));
        if l is Some && r is Some && l->0.len() + r->0.len() <= 7 {
            Some(v6_of(l->0 + zeros((8 - l->0.len() - r->0.len()) as nat) + r->0))
        } else {
            None
        }
    } else {
        let g = tail_groups_of(s);
        if g is Some && g->0.len() == 8 {
            Some(v6_of(g->0))
        } else {
            None
        }
    }
}

/// The lower-case digit of value `d`, below sixteen.
pub open spec fn digit_char(d: nat) -> char {
    if d == 0 {
        '0'
    } else
    if d == 1 {
        '1'
    } else
    if d == 2 {
        '2'
    } else
    if d == 3 {
        '3'
    } else
    if d == 4 {
        '4'
    } else
    if d == 5 {
        '5'
    } else
    if d == 6 {
        '6'
    } else
    if d == 7 {
        '7'
    } else
    if d == 8 {
        '8'
    } else
    if d == 9 {
        '9'
    } else
    if d == 10 {
        'a'
    } else
    if d == 11 {
        'b'
    } else
    if d == 12 {
        'c'
    } else
    if d == 13 {
        'd'
    } else
    if d == 14 {
        'e'
    } else {
        'f'
    }
}

/// `n` in decimal, without leading zeros.
pub open spec fn dec_digits(n: nat) -> Seq<char>
    decreases n,
{
    if n < 10 {
        seq![digit_char(n)]
    } else {
        dec_digits(n / 10) + seq![digit_char(n % 10)]
    }
}

/// `n` in hexadecimal, lower case, without leading zeros.
pub open spec fn hex_digits(n: nat) -> Seq<char>
    decreases n,
{
    if n < 16 {
        seq![digit_char(n)]
    } else {
        hex_digits(n / 16) + seq![digit_char(n % 16)]
    }
}

pub open spec fn fmt_ip4(a: u8, b: u8, c: u8, d: u8) -> Seq<char> {
    dec_digits(a as nat) + seq!['.'] + dec_digits(b as nat) + seq!['.'] + dec_digits(c as nat)
        + seq!['.'] + dec_digits(d as nat)
}

/// The groups in hexadecimal, separated by colons.
pub open spec fn join_groups(g: Seq<u16>) -> Seq<char>
    decreases g.len(),
{
    if g.len() == 0 {
        Seq::empty()
    } else if g.len() == 1 {
        hex_digits(g[0] as nat)
    } else {
        hex_digits(g[0] as nat) + seq![':'] + join_groups(g.drop_first())
    }
}

/// The number of zero groups that start at `i`.
pub open spec fn zero_run(g: Seq<u16>, i: nat) -> nat
    decreases g.len() - i,
{
    if i < g.len() && g[i as int] == 0 {
        1 + zero_run(g, i + 1)
    } else {
        0
    }
}

/// Start and length of the longest run of zero groups at or after `i`; the
/// first one among runs of equal length.
pub open spec fn longest_zero_run(g: Seq<u16>, i: nat) -> (nat, nat)
    decreases g.len() - i,
{
    if i >= g.len() {
        (g.len(), 0)
    } else {
        let (s, l) = longest_zero_run(g, i + 1);
        if zero_run(g, i) >= l {
            (i, zero_run(g, i))
        } else {
            (s, l)
        }
    }
}

/// The groups are `::ffff:` followed by an IPv4 address.
pub open spec fn is_v4_mapped(g: Seq<u16>) -> bool {
    &&& g.len() == 8
    &&& g[0] == 0 && g[1] == 0 && g[2] == 0 && g[3] == 0 && g[4] == 0
    &&& g[5] == 0xffff
}

/// An IPv4-mapped address as `::ffff:` and the IPv4 address; otherwise the
/// groups in hexadecimal, with the longest run of two or more zero groups
/// written `::`.
pub open spec fn fmt_ip6(g: Seq<u16>) -> Seq<char> {
    let (s, l) = longest_zero_run(g, 0);
    if is_v4_mapped(g) {
        seq![':', ':'] + hex_digits(0xffff) + seq![':'] + fmt_ip4(
            (g[6] / 256) as u8,
            (g[6] % 256) as u8,
            (g[7] / 256) as u8,
            (g[7] % 256) as u8,
        )
    } else if l >= 2 {
        join_groups(g.take(s as int)) + seq![':', ':'] + join_groups(g.skip((s + l) as int))
    } else {
        join_groups(g)
    }
}

pub open spec fn fmt_ip(a: IpAddr) -> Seq<char> {
    match a {
        IpAddr::V4(a, b, c, d) => fmt_ip4(a, b, c, d),
        IpAddr::V6(..) => fmt_ip6(groups_of_v6(a)),
    }
}

proof fn lemma_value_step(s: Seq<char>, i: int, base: nat)
    requires
        0 <= i < s.len(),
    ensures
        value_in(s.take(i + 1), base) == value_in(s.take(i), base) * base + digit_value(s[i]),
{
    assert(s.take(i + 1).drop_last() =~= s.take(i));
}

proof fn lemma_value_prefix(s: Seq<char>, j: int)
    requires
        0 <= j <= s.len(),
    ensures
        value_in(s.take(j), 10) <= value_in(s, 10),
    decreases s.len(),
{
    if j < s.len() {
        lemma_value_prefix(s.drop_last(), j);
        assert(s.drop_last().take(j) =~= s.take(j));
    } else {
        assert(s.take(j) =~= s);
    }
}

proof fn lemma_split_nonempty(s: Seq<char>, c: char)
    ensures
        split(s, c).len() >= 1,
    decreases s.len(),
{
    let i = first_index(s, c);
    if i < s.len() {
        lemma_split_nonempty(s.skip((i + 1) as int), c);
    }
}

/// Parses the decimal or hexadecimal digits from `lo` up to `hi`, of which
/// there are at most four.
fn small_value(s: &Vec<char>, lo: usize, hi: usize, base: u32) -> (r: u32)
    requires
        lo <= hi <= s.len(),
        hi - lo <= 4,
        base == 10 || base == 16,
        forall|k: int| lo <= k < hi ==> is_hex(#[trigger] s@[k]),
    ensures
        r == value_in(slice_of(s@, lo as int, hi as int), base as nat),
        r <= 65535,
{
    let ghost t = slice_of(s@, lo as int, hi as int);
    let mut acc: u32 = 0;
    let mut i: usize = lo;
    assert(t.take(0) =~= Seq::<char>::empty());
    while i < hi
        invariant
            lo <= i <= hi <= s.len(),
            hi - lo <= 4,
            base == 10 || base == 16,
            t == slice_of(s@, lo as int, hi as int),
            forall|k: int| lo <= k < hi ==> is_hex(#[trigger] s@[k]),
            acc == value_in(t.take(i - lo), base as nat),
            i - lo == 0 ==> acc == 0,
            i - lo == 1 ==> acc < 16,
            i - lo == 2 ==> acc < 256,
            i - lo == 3 ==> acc < 4096,
            i - lo == 4 ==> acc < 65536,
        decreases hi - i,
    {
        let c = s[i];
        let d: u32 = if '0' <= c && c <= '9' {
            (c as u32) - ('0' as u32)
        } else if 'a' <= c && c <= 'f' {
            (c as u32) - ('a' as u32) + 10
        } else {
            (c as u32) - ('A' as u32) + 10
        };
        assert(is_hex(s@[i as int]));
        proof {
            lemma_value_step(t, i - lo, base as nat);
        }
        assert(d < 16);
        assert(acc * base <= acc * 16) by (nonlinear_arith)
            requires
                base <= 16,
        ;
        acc = acc * base + d;
        i += 1;
    }
    assert(t.take(hi - lo) =~= t);
    acc
}

fn is_hex_char(c: char) -> (r: bool)
    ensures
        r == is_hex(c),
{
    ('0' <= c && c <= '9') || ('a' <= c && c <= 'f') || ('A' <= c && c <= 'F')
}

fn all_hex_in(s: &Vec<char>, lo: usize, hi: usize, decimal: bool) -> (r: bool)
    requires
        lo <= hi <= s.len(),
    ensures
        decimal ==> (r == all_digits(slice_of(s@, lo as int, hi as int))),
        !decimal ==> (r == all_hex(slice_of(s@, lo as int, hi as int))),
{
    let mut i: usize = lo;
    while i < hi
        invariant
            lo <= i <= hi <= s.len(),
            forall|k: int|
                lo <= k < i ==> if decimal {
                    is_digit(#[trigger] s@[k])
                } else {
                    is_hex(s@[k])
                },
        decreases hi - i,
    {
        let c = s[i];
        let ok = if decimal {
            '0' <= c && c <= '9'
        } else {
            is_hex_char(c)
        };
        if !ok {
            assert(slice_of(s@, lo as int, hi as int)[i - lo] == c);
            if decimal {
                assert(!is_digit(slice_of(s@, lo as int, hi as int)[i - lo]));
            } else {
                assert(!is_hex(slice_of(s@, lo as int, hi as int)[i - lo]));
            }
            return false;
        }
        i += 1;
    }
    assert forall|k: int| 0 <= k < hi - lo implies (decimal ==> is_digit(
        #[trigger] slice_of(s@, lo as int, hi as int)[k],
    )) && (!decimal ==> is_hex(slice_of(s@, lo as int, hi as int)[k])) by {
        assert(slice_of(s@, lo as int, hi as int)[k] == s@[lo + k]);
    }
    true
}

fn octet_at(s: &Vec<char>, lo: usize, hi: usize) -> (r: Option<u8>)
    requires
        lo <= hi <= s.len(),
    ensures
        r == parse_octet(slice_of(s@, lo as int, hi as int)),
{
    let ghost t = slice_of(s@, lo as int, hi as int);
    if hi - lo < 1 || hi - lo > 3 || !all_hex_in(s, lo, hi, true) {
        return None;
    }
    if hi - lo > 1 && s[lo] == '0' {
        return None;
    }
    assert forall|k: int| lo <= k < hi implies is_hex(#[trigger] s@[k]) by {
        assert(t[k - lo] == s@[k]);
    }
    let v = small_value(s, lo, hi, 10);
    if v > 255 {
        None
    } else {
        Some(v as u8)
    }
}

/// The port number spelled by the characters from `lo` up to `hi`.
pub fn port_at(s: &Vec<char>, lo: usize, hi: usize) -> (r: Option<u16>)
    requires
        lo <= hi <= s.len(),
    ensures
        r == parse_port(slice_of(s@, lo as int, hi as int)),
{
    let ghost t = slice_of(s@, lo as int, hi as int);
    let start: usize = if lo < hi && s[lo] == '+' {
        lo + 1
    } else {
        lo
    };
    let ghost d = slice_of(s@, start as int, hi as int);
    assert(d =~= (if t.len() > 0 && t[0] == '+' {
        t.drop_first()
    } else {
        t
    }));
    if start == hi || !all_hex_in(s, start, hi, true) {
        return None;
    }
    let mut acc: u32 = 0;
    let mut i: usize = start;
    assert(d.take(0) =~= Seq::<char>::empty());
    while i < hi
        invariant
            start <= i <= hi <= s.len(),
            d == slice_of(s@, start as int, hi as int),
            t == slice_of(s@, lo as int, hi as int),
            d == (if t.len() > 0 && t[0] == '+' {
                t.drop_first()
            } else {
                t
            }),
            all_digits(d),
            acc == value_in(d.take(i - start), 10),
            acc <= 65535,
        decreases hi - i,
    {
        let c = s[i];
        assert(d[i - start] == c);
        assert(is_digit(d[i - start]));
        let dv: u32 = (c as u32) - ('0' as u32);
        proof {
            lemma_value_step(d, i - start, 10);
        }
        let next = acc * 10 + dv;
        if next > 65535 {
            proof {
                lemma_value_prefix(d, i - start + 1);
            }
            return None;
        }
        acc = next;
        i += 1;
    }
    assert(d.take(hi - start) =~= d);
    Some(acc as u16)
}

/// The IPv4 address spelled by the characters from `lo` up to `hi`.
pub fn ip4_at(s: &Vec<char>, lo: usize, hi: usize) -> (r: Option<IpAddr>)
    requires
        lo <= hi <= s.len(),
    ensures
        r == parse_ip4(slice_of(s@, lo as int, hi as int)),
{
    let p = split_ranges(s, lo, hi, '.');
    if p.len() != 4 {
        return None;
    }
    let a = octet_at(s, p[0].0, p[0].1);
    let b = octet_at(s, p[1].0, p[1].1);
    let c = octet_at(s, p[2].0, p[2].1);
    let d = octet_at(s, p[3].0, p[3].1);
    match (a, b, c, d) {
        (Some(a), Some(b), Some(c), Some(d)) => Some(IpAddr::V4(a, b, c, d)),
        _ => None,
    }
}

fn digit_char_of(d: u32) -> (r: char)
    requires
        d < 16,
    ensures
        r == digit_char(d as nat),
{
    if d == 0 {
        '0'
    } else
    if d == 1 {
        '1'
    } else
    if d == 2 {
        '2'
    } else
    if d == 3 {
        '3'
    } else
    if d == 4 {
        '4'
    } else
    if d == 5 {
        '5'
    } else
    if d == 6 {
        '6'
    } else
    if d == 7 {
        '7'
    } else
    if d == 8 {
        '8'
    } else
    if d == 9 {
        '9'
    } else
    if d == 10 {
        'a'
    } else
    if d == 11 {
        'b'
    } else
    if d == 12 {
        'c'
    } else
    if d == 13 {
        'd'
    } else
    if d == 14 {
        'e'
    } else {
        'f'
    }
}

/// Appends `n` in decimal.
fn push_dec(out: &mut String, n: u32)
    ensures
        final(out)@ == old(out)@ + dec_digits(n as nat),
    decreases n,
{
    if n >= 10 {
        push_dec(out, n / 10);
    }
    push_char(out, digit_char_of(n % 10));
}

/// Appends `n` in hexadecimal.
fn push_hex(out: &mut String, n: u32)
    ensures
        final(out)@ == old(out)@ + hex_digits(n as nat),
    decreases n,
{
    if n >= 16 {
        push_hex(out, n / 16);
    }
    push_char(out, digit_char_of(n % 16));
}

/// Appends `n` in decimal.
pub fn push_port(out: &mut String, n: u16)
    ensures
        final(out)@ == old(out)@ + dec_digits(n as nat),
{
    push_dec(out, n as u32);
}

fn zero_run_at(g: &Vec<u16>, i: usize) -> (r: usize)
    requires
        i <= g.len(),
    ensures
        r == zero_run(g@, i as nat),
        r <= g.len() - i,
    decreases g.len() - i,
{
    if i < g.len() && g[i] == 0 {
        1 + zero_run_at(g, i + 1)
    } else {
        0
    }
}

fn longest_zero_run_at(g: &Vec<u16>, i: usize) -> (r: (usize, usize))
    requires
        i <= g.len(),
    ensures
        (r.0 as nat, r.1 as nat) == longest_zero_run(g@, i as nat),
        r.0 <= g.len(),
        r.0 + r.1 <= g.len(),
    decreases g.len() - i,
{
    if i >= g.len() {
        (g.len(), 0)
    } else {
        let (s, l) = longest_zero_run_at(g, i + 1);
        let z = zero_run_at(g, i);
        if z >= l {
            (i, z)
        } else {
            (s, l)
        }
    }
}

/// Appends the groups from `lo` up to `hi`, in hexadecimal, separated by colons.
fn push_groups(out: &mut String, g: &Vec<u16>, lo: usize, hi: usize)
    requires
        lo <= hi <= g.len(),
    ensures
        final(out)@ == old(out)@ + join_groups(g@.subrange(lo as int, hi as int)),
    decreases hi - lo,
{
    let ghost h = g@.subrange(lo as int, hi as int);
    if lo == hi {
        assert(old(out)@ + join_groups(h) =~= old(out)@);
        return;
    }
    push_hex(out, g[lo] as u32);
    if hi - lo == 1 {
        return;
    }
    push_char(out, ':');
    push_groups(out, g, lo + 1, hi);
    assert(h.drop_first() =~= g@.subrange(lo + 1, hi as int));
    assert(final(out)@ =~= old(out)@ + join_groups(h));
}

/// Appends the address in its usual text form.
pub fn push_ip(out: &mut String, a: IpAddr)
    ensures
        final(out)@ == old(out)@ + fmt_ip(a),
{
    match a {
        IpAddr::V4(a0, a1, a2, a3) => {
            push_dec(out, a0 as u32);
            push_char(out, '.');
            push_dec(out, a1 as u32);
            push_char(out, '.');
            push_dec(out, a2 as u32);
            push_char(out, '.');
            push_dec(out, a3 as u32);
            assert(final(out)@ =~= old(out)@ + fmt_ip(a));
        },
        IpAddr::V6(a0, a1, a2, a3, a4, a5, a6, a7) => {
            let mut g: Vec<u16> = Vec::new();
            g.push(a0);
            g.push(a1);
            g.push(a2);
            g.push(a3);
            g.push(a4);
            g.push(a5);
            g.push(a6);
            g.push(a7);
            assert(g@ =~= groups_of_v6(a));
            let (s, l) = longest_zero_run_at(&g, 0);
            if a0 == 0 && a1 == 0 && a2 == 0 && a3 == 0 && a4 == 0 && a5 == 0xffff {
                push_char(out, ':');
                push_char(out, ':');
                push_hex(out, 0xffff);
                push_char(out, ':');
                push_dec(out, (a6 / 256) as u32);
                push_char(out, '.');
                push_dec(out, (a6 % 256) as u32);
                push_char(out, '.');
                push_dec(out, (a7 / 256) as u32);
                push_char(out, '.');
                push_dec(out, (a7 % 256) as u32);
            } else if l >= 2 {
                push_groups(out, &g, 0, s);
                push_char(out, ':');
                push_char(out, ':');
                push_groups(out, &g, s + l, 8);
                assert(g@.subrange(0, s as int) =~= g@.take(s as int));
                assert(g@.subrange((s + l) as int, 8) =~= g@.skip((s + l) as int));
            } else {
                push_groups(out, &g, 0, 8);
                assert(g@.subrange(0, 8) =~= g@);
            }
            assert(final(out)@ =~= old(out)@ + fmt_ip(a));
        },
    }
}

proof fn lemma_double_colon(t: Seq<char>, j: int)
    requires
        0 <= j <= t.len(),
        forall|k: int| 0 <= k < j && k + 1 < t.len() ==> !(#[trigger] t[k] == ':' && t[k + 1] == ':'),
        j == t.len() || (j + 1 < t.len() && t[j] == ':' && t[j + 1] == ':'),
    ensures
        double_colon(t) == j,
    decreases j,
{
    if j > 0 && t.len() >= 2 {
        assert(!(t[0] == ':' && t[1] == ':'));
        lemma_double_colon(t.drop_first(), j - 1);
    }
}

fn double_colon_at(s: &Vec<char>, lo: usize, hi: usize) -> (r: usize)
    requires
        lo <= hi <= s.len(),
    ensures
        lo <= r <= hi,
        r - lo == double_colon(slice_of(s@, lo as int, hi as int)),
        r < hi ==> r + 1 < hi && s@[r as int] == ':' && s@[r + 1] == ':',
{
    let ghost t = slice_of(s@, lo as int, hi as int);
    let mut j: usize = lo;
    while hi - j > 1 && !(s[j] == ':' && s[j + 1] == ':')
        invariant
            lo <= j <= hi <= s.len(),
            t == slice_of(s@, lo as int, hi as int),
            forall|k: int| lo <= k < j && k + 1 < hi ==> !(#[trigger] s@[k] == ':' && s@[k + 1] == ':'),
        decreases hi - j,
    {
        j += 1;
    }
    if hi - j > 1 {
        proof {
            lemma_double_colon(t, j - lo);
        }
        j
    } else {
        proof {
            lemma_double_colon(t, hi - lo);
        }
        hi
    }
}

fn group_at(s: &Vec<char>, lo: usize, hi: usize) -> (r: Option<u16>)
    requires
        lo <= hi <= s.len(),
    ensures
        r == parse_group(slice_of(s@, lo as int, hi as int)),
{
    let ghost t = slice_of(s@, lo as int, hi as int);
    if hi - lo < 1 || hi - lo > 4 || !all_hex_in(s, lo, hi, false) {
        return None;
    }
    assert forall|k: int| lo <= k < hi implies is_hex(#[trigger] s@[k]) by {
        assert(t[k - lo] == s@[k]);
    }
    let v = small_value(s, lo, hi, 16);
    Some(v as u16)
}

/// The colon-separated groups from `lo` up to `hi`.
fn groups_at(s: &Vec<char>, lo: usize, hi: usize) -> (r: Option<Vec<u16>>)
    requires
        lo <= hi <= s.len(),
    ensures
        r is Some <==> groups_of(slice_of(s@, lo as int, hi as int)) is Some,
        r is Some ==> groups_of(slice_of(s@, lo as int, hi as int))->0 == r->0@,
{
    let ghost t = slice_of(s@, lo as int, hi as int);
    let mut out: Vec<u16> = Vec::new();
    if lo == hi {
        assert(out@ =~= Seq::<u16>::empty());
        return Some(out);
    }
    let p = split_ranges(s, lo, hi, ':');
    let ghost ps = split(t, ':');
    let mut i: usize = 0;
    while i < p.len()
        invariant
            lo < hi <= s.len(),
            t == slice_of(s@, lo as int, hi as int),
            ps == split(t, ':'),
            p@.len() == ps.len(),
            forall|k: int|
                0 <= k < p@.len() ==> lo <= #[trigger] p@[k].0 <= p@[k].1 <= hi && slice_of(
                    s@,
                    p@[k].0 as int,
                    p@[k].1 as int,
                ) == ps[k],
            i <= p.len(),
            out@.len() == i,
            forall|k: int| 0 <= k < i ==> (#[trigger] parse_group(ps[k])) is Some,
            forall|k: int| 0 <= k < i ==> out@[k] == #[trigger] parse_group(ps[k])->0,
        decreases p.len() - i,
    {
        let (a, b) = p[i];
        assert(p@[i as int].0 == a);
        match group_at(s, a, b) {
            Some(v) => {
                out.push(v);
            },
            None => {
                assert(parse_group(ps[i as int]) is None);
                return None;
            },
        }
        i += 1;
    }
    assert(out@ =~= group_values(ps));
    Some(out)
}

/// The colon-separated groups from `lo` up to `hi`, of which the last piece
/// may be an IPv4 address.
fn tail_groups_at(s: &Vec<char>, lo: usize, hi: usize) -> (r: Option<Vec<u16>>)
    requires
        lo <= hi <= s.len(),
    ensures
        r is Some <==> tail_groups_of(slice_of(s@, lo as int, hi as int)) is Some,
        r is Some ==> tail_groups_of(slice_of(s@, lo as int, hi as int))->0 == r->0@,
{
    let ghost t = slice_of(s@, lo as int, hi as int);
    let mut out: Vec<u16> = Vec::new();
    if lo == hi {
        assert(out@ =~= Seq::<u16>::empty());
        return Some(out);
    }
    let p = split_ranges(s, lo, hi, ':');
    let ghost ps = split(t, ':');
    proof {
        lemma_split_nonempty(t, ':');
    }
    let last = p.len() - 1;
    let mut i: usize = 0;
    while i < last
        invariant
            lo < hi <= s.len(),
            t == slice_of(s@, lo as int, hi as int),
            ps == split(t, ':'),
            p@.len() == ps.len(),
            last == p@.len() - 1,
            forall|k: int|
                0 <= k < p@.len() ==> lo <= #[trigger] p@[k].0 <= p@[k].1 <= hi && slice_of(
                    s@,
                    p@[k].0 as int,
                    p@[k].1 as int,
                ) == ps[k],
            i <= last,
            out@.len() == i,
            forall|k: int| 0 <= k < i ==> (#[trigger] parse_group(ps[k])) is Some,
            forall|k: int| 0 <= k < i ==> out@[k] == #[trigger] parse_group(ps[k])->0,
        decreases last - i,
    {
        let (a, b) = p[i];
        assert(p@[i as int].0 == a);
        match group_at(s, a, b) {
            Some(v) => {
                out.push(v);
            },
            None => {
                assert(ps.drop_last()[i as int] == ps[i as int]);
                assert(parse_group(ps.drop_last()[i as int]) is None);
                return None;
            },
        }
        i += 1;
    }
    let ghost front = out@;
    assert(front =~= group_values(ps.drop_last()));
    assert forall|k: int| 0 <= k < ps.drop_last().len() implies (#[trigger] parse_group(ps.drop_last()[k])) is Some by {
        assert(ps.drop_last()[k] == ps[k]);
    }
    let (a, b) = p[last];
    assert(p@[last as int].0 == a);
    assert(ps.last() == ps[last as int]);
    match group_at(s, a, b) {
        Some(v) => {
            out.push(v);
            assert(out@ =~= front + seq![v]);
            Some(out)
        },
        None => match ip4_at(s, a, b) {
            Some(IpAddr::V4(x, y, z, w)) => {
                let hi_group: u16 = (x as u16) * 256 + (y as u16);
                let lo_group: u16 = (z as u16) * 256 + (w as u16);
                out.push(hi_group);
                out.push(lo_group);
                assert(out@ =~= front + seq![hi_group, lo_group]);
                Some(out)
            },
            _ => None,
        },
    }
}

/// The IPv6 address spelled by the characters from `lo` up to `hi`.
pub fn ip6_at(s: &Vec<char>, lo: usize, hi: usize) -> (r: Option<IpAddr>)
    requires
        lo <= hi <= s.len(),
    ensures
        r == parse_ip6(slice_of(s@, lo as int, hi as int)),
{
    let ghost t = slice_of(s@, lo as int, hi as int);
    let k = double_colon_at(s, lo, hi);
    if k < hi {
        assert(k + 2 <= hi);
        assert(t.take(k - lo) =~= slice_of(s@, lo as int, k as int));
        assert(t.skip(k - lo + 2) =~= slice_of(s@, k + 2, hi as int));
        let l = groups_at(s, lo, k);
        let r = tail_groups_at(s, k + 2, hi);
        match (l, r) {
            (Some(l), Some(r)) => {
                if l.len() > 7 || r.len() > 7 || l.len() + r.len() > 7 {
                    return None;
                }
                let mut g: Vec<u16> = Vec::new();
                let mut i: usize = 0;
                while i < l.len()
                    invariant
                        i <= l.len(),
                        g@ == l@.take(i as int),
                    decreases l.len() - i,
                {
                    g.push(l[i]);
                    i += 1;
                    assert(g@ =~= l@.take(i as int));
                }
                let n = 8 - l.len() - r.len();
                let mut z: usize = 0;
                while z < n
                    invariant
                        z <= n,
                        g@ == l@ + zeros(z as nat),
                    decreases n - z,
                {
                    g.push(0);
                    z += 1;
                    assert(g@ =~= l@ + zeros(z as nat));
                }
                let mut j: usize = 0;
                while j < r.len()
                    invariant
                        j <= r.len(),
                        g@ == l@ + zeros(n as nat) + r@.take(j as int),
                    decreases r.len() - j,
                {
                    g.push(r[j]);
                    j += 1;
                    assert(g@ =~= l@ + zeros(n as nat) + r@.take(j as int));
                }
                assert(r@.take(r.len() as int) =~= r@);
                assert(g@.len() == 8);
                Some(IpAddr::V6(g[0], g[1], g[2], g[3], g[4], g[5], g[6], g[7]))
            },
            _ => None,
        }
    } else {
        match tail_groups_at(s, lo, hi) {
            Some(g) => {
                if g.len() != 8 {
                    return None;
                }
                Some(IpAddr::V6(g[0], g[1], g[2], g[3], g[4], g[5], g[6], g[7]))
            },
            None => None,
        }
    }
}

} // verus!
