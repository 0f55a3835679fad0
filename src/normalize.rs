use vstd::prelude::*;

use crate::ip::{
    all_digits, all_hex, dec_digits, digit_char, digit_value, double_colon, fmt_ip, fmt_ip4,
    fmt_ip6, groups_of, groups_of_v6, group_values, hex_digits, is_digit, is_hex, is_v4_mapped,
    last_piece, tail_groups_of,
    join_groups, longest_zero_run, parse_group, parse_ip4, parse_ip6, parse_octet, parse_port,
    v6_of, value_in, zero_run, zeros, IpAddr,
};
use crate::multiaddr::{
    after, fmt_layer, fmt_layers, fmt_multiaddr, has_http, has_tls, lemma_skip_slashes,
    parse_from, parse_multiaddr, seg_end, skip_slashes, ProtocolView,
};
use crate::text::{lemma_first_index, lemma_first_index_bound, split};

verus! {

/// `c` does not occur in `s`.
pub open spec fn lacks(s: Seq<char>, c: char) -> bool {
    forall|k: int| 0 <= k < s.len() ==> #[trigger] s[k] != c
}

proof fn lemma_digit_char(d: nat)
    requires
        d < 16,
    ensures
        is_hex(digit_char(d)),
        digit_value(digit_char(d)) == d,
        d < 10 ==> is_digit(digit_char(d)),
        (digit_char(d) == '0') == (d == 0),
{
}

proof fn lemma_digits_lack(s: Seq<char>)
    requires
        all_hex(s),
    ensures
        lacks(s, '.') || !all_digits(s),
        lacks(s, ':'),
        lacks(s, '/'),
        all_digits(s) ==> lacks(s, '.'),
{
    assert forall|k: int| 0 <= k < s.len() implies #[trigger] s[k] != ':' && s[k] != '/' by {
        assert(is_hex(s[k]));
    }
    if all_digits(s) {
        assert forall|k: int| 0 <= k < s.len() implies #[trigger] s[k] != '.' by {
            assert(is_digit(s[k]));
        }
    }
}

proof fn lemma_dec_digits(n: nat)
    ensures
        all_digits(dec_digits(n)),
        all_hex(dec_digits(n)),
        value_in(dec_digits(n), 10) == n,
        dec_digits(n).len() >= 1,
        n < 10 ==> dec_digits(n).len() == 1,
        n < 100 ==> dec_digits(n).len() <= 2,
        n < 1000 ==> dec_digits(n).len() <= 3,
        dec_digits(n)[0] == '0' ==> n == 0,
    decreases n,
{
    let s = dec_digits(n);
    if n < 10 {
        lemma_digit_char(n);
        assert(s.drop_last() =~= Seq::<char>::empty());
        assert(value_in(s, 10) == value_in(s.drop_last(), 10) * 10 + digit_value(s.last()));
    } else {
        lemma_dec_digits(n / 10);
        lemma_digit_char(n % 10);
        let p = dec_digits(n / 10);
        assert(s == p + seq![digit_char(n % 10)]);
        assert(s.drop_last() =~= p);
        assert(value_in(s, 10) == value_in(p, 10) * 10 + digit_value(digit_char(n % 10)));
        assert(s[0] == p[0]);
        assert forall|i: int| 0 <= i < s.len() implies is_digit(#[trigger] s[i]) by {
            if i < p.len() {
                assert(s[i] == p[i]);
            }
        }
    }
    assert forall|i: int| 0 <= i < s.len() implies is_hex(#[trigger] s[i]) by {
        assert(is_digit(s[i]));
    }
}

proof fn lemma_hex_digits(n: nat)
    ensures
        all_hex(hex_digits(n)),
        value_in(hex_digits(n), 16) == n,
        hex_digits(n).len() >= 1,
        n < 16 ==> hex_digits(n).len() == 1,
        n < 256 ==> hex_digits(n).len() <= 2,
        n < 4096 ==> hex_digits(n).len() <= 3,
        n < 65536 ==> hex_digits(n).len() <= 4,
    decreases n,
{
    let s = hex_digits(n);
    if n < 16 {
        lemma_digit_char(n);
        assert(s.drop_last() =~= Seq::<char>::empty());
        assert(value_in(s, 16) == value_in(s.drop_last(), 16) * 16 + digit_value(s.last()));
    } else {
        lemma_hex_digits(n / 16);
        lemma_digit_char(n % 16);
        let p = hex_digits(n / 16);
        assert(s == p + seq![digit_char(n % 16)]);
        assert(s.drop_last() =~= p);
        assert(value_in(s, 16) == value_in(p, 16) * 16 + digit_value(digit_char(n % 16)));
        assert forall|i: int| 0 <= i < s.len() implies is_hex(#[trigger] s[i]) by {
            if i < p.len() {
                assert(s[i] == p[i]);
            }
        }
    }
}

proof fn lemma_octet(a: u8)
    ensures
        parse_octet(dec_digits(a as nat)) == Some(a),
{
    lemma_dec_digits(a as nat);
}

/// Decimal digits read back as the port they spell.
pub proof fn lemma_port_round_trip(p: u16)
    ensures
        parse_port(dec_digits(p as nat)) == Some(p),
{
    lemma_dec_digits(p as nat);
    assert(is_digit(dec_digits(p as nat)[0]));
}

proof fn lemma_group(g: u16)
    ensures
        parse_group(hex_digits(g as nat)) == Some(g),
{
    lemma_hex_digits(g as nat);
}

proof fn lemma_split_none(a: Seq<char>, c: char)
    requires
        lacks(a, c),
    ensures
        split(a, c) == seq![a],
{
    lemma_first_index(a, c, a.len() as int);
}

proof fn lemma_split_cons(a: Seq<char>, b: Seq<char>, c: char)
    requires
        lacks(a, c),
    ensures
        split(a + seq![c] + b, c) == seq![a] + split(b, c),
{
    let s = a + seq![c] + b;
    lemma_first_index(s, c, a.len() as int);
    assert(s.take(a.len() as int) =~= a);
    assert(s.skip(a.len() + 1 as int) =~= b);
}

proof fn lemma_ip4_round_trip(a: u8, b: u8, c: u8, d: u8)
    ensures
        parse_ip4(fmt_ip4(a, b, c, d)) == Some(IpAddr::V4(a, b, c, d)),
        lacks(fmt_ip4(a, b, c, d), '/'),
        lacks(fmt_ip4(a, b, c, d), ':'),
        fmt_ip4(a, b, c, d).len() >= 7,
{
    let (da, db, dc, dd) = (
        dec_digits(a as nat),
        dec_digits(b as nat),
        dec_digits(c as nat),
        dec_digits(d as nat),
    );
    lemma_dec_digits(a as nat);
    lemma_dec_digits(b as nat);
    lemma_dec_digits(c as nat);
    lemma_dec_digits(d as nat);
    lemma_digits_lack(da);
    lemma_digits_lack(db);
    lemma_digits_lack(dc);
    lemma_digits_lack(dd);
    lemma_octet(a);
    lemma_octet(b);
    lemma_octet(c);
    lemma_octet(d);
    let s = fmt_ip4(a, b, c, d);
    assert(s =~= da + seq!['.'] + (db + seq!['.'] + (dc + seq!['.'] + dd)));
    lemma_split_cons(da, db + seq!['.'] + (dc + seq!['.'] + dd), '.');
    lemma_split_cons(db, dc + seq!['.'] + dd, '.');
    lemma_split_cons(dc, dd, '.');
    lemma_split_none(dd, '.');
    let p = split(s, '.');
    assert(p =~= seq![da, db, dc, dd]);
    assert forall|k: int| 0 <= k < s.len() implies #[trigger] s[k] != '/' && s[k] != ':' by {
        let t = da + seq!['.'] + (db + seq!['.'] + (dc + seq!['.'] + dd));
        assert(s[k] == t[k]);
    }
}

pub open spec fn hexes(g: Seq<u16>) -> Seq<Seq<char>> {
    Seq::new(g.len(), |i: int| hex_digits(g[i] as nat))
}

/// The text of joined groups: it starts and ends with a digit, and no two
/// colons stand side by side.
proof fn lemma_join(g: Seq<u16>)
    ensures
        split(join_groups(g), ':') == hexes(g) || g.len() == 0,
        g.len() == 0 <==> join_groups(g).len() == 0,
        g.len() > 0 ==> join_groups(g)[0] != ':' && join_groups(g).last() != ':',
        forall|k: int|
            0 <= k < join_groups(g).len() - 1 ==> !(#[trigger] join_groups(g)[k] == ':'
                && join_groups(g)[k + 1] == ':'),
        lacks(join_groups(g), '/'),
    decreases g.len(),
{
    let j = join_groups(g);
    if g.len() == 0 {
        return;
    }
    let h = hex_digits(g[0] as nat);
    lemma_hex_digits(g[0] as nat);
    lemma_digits_lack(h);
    assert(h[0] != ':');
    assert(h.last() != ':');
    if g.len() == 1 {
        lemma_split_none(h, ':');
        assert(hexes(g) =~= seq![h]);
        return;
    }
    let rest = g.drop_first();
    let jr = join_groups(rest);
    lemma_join(rest);
    assert(j == h + seq![':'] + jr);
    lemma_split_cons(h, jr, ':');
    assert(hexes(g) =~= seq![h] + hexes(rest));
    assert(j[0] == h[0]);
    assert(j.last() == jr.last());
    assert forall|k: int| 0 <= k < j.len() - 1 implies !(#[trigger] j[k] == ':' && j[k + 1] == ':') by {
        if k < h.len() - 1 {
            assert(j[k] == h[k]);
        } else if k == h.len() - 1 {
            assert(j[k] == h[k]);
        } else if k == h.len() {
            assert(j[k + 1] == jr[0]);
        } else {
            assert(j[k] == jr[k - h.len() - 1]);
            assert(j[k + 1] == jr[k + 1 - h.len() - 1]);
        }
    }
    assert forall|k: int| 0 <= k < j.len() implies #[trigger] j[k] != '/' by {
        if k < h.len() {
            assert(j[k] == h[k]);
        } else if k > h.len() {
            assert(j[k] == jr[k - h.len() - 1]);
        }
    }
}

proof fn lemma_groups_of_join(g: Seq<u16>)
    ensures
        groups_of(join_groups(g)) == Some(g),
{
    lemma_join(g);
    if g.len() > 0 {
        let p = split(join_groups(g), ':');
        assert forall|i: int| 0 <= i < p.len() implies (#[trigger] parse_group(p[i])) is Some by {
            lemma_group(g[i]);
        }
        assert forall|i: int| 0 <= i < p.len() implies group_values(p)[i] == g[i] by {
            lemma_group(g[i]);
        }
        assert(group_values(p) =~= g);
    } else {
        assert(g =~= Seq::<u16>::empty());
    }
}

proof fn lemma_double_colon_at(t: Seq<char>, j: int)
    requires
        0 <= j <= t.len(),
        forall|k: int| 0 <= k < j && k + 1 < t.len() ==> !(#[trigger] t[k] == ':' && t[k + 1] == ':'),
        j == t.len() || (j + 1 < t.len() && t[j] == ':' && t[j + 1] == ':'),
    ensures
        double_colon(t) == j,
    decreases j,
{
    if j > 0 && t.len() >= 2 {
        assert(!(t[0] == ':' && t[1] == ':'));
        lemma_double_colon_at(t.drop_first(), j - 1);
    }
}

proof fn lemma_zero_run(g: Seq<u16>, i: nat)
    requires
        i <= g.len(),
    ensures
        i + zero_run(g, i) <= g.len(),
        forall|k: int| 0 <= k < zero_run(g, i) ==> #[trigger] g[i + k] == 0,
    decreases g.len() - i,
{
    if i < g.len() && g[i as int] == 0 {
        lemma_zero_run(g, i + 1);
        assert forall|k: int| 0 <= k < zero_run(g, i) implies #[trigger] g[i + k] == 0 by {
            if k > 0 {
                assert(g[(i + 1) + (k - 1)] == 0);
            }
        }
    }
}

proof fn lemma_longest(g: Seq<u16>, i: nat)
    requires
        i <= g.len(),
    ensures
        longest_zero_run(g, i).1 > 0 ==> longest_zero_run(g, i).0 < g.len() && longest_zero_run(g, i).1
            == zero_run(g, longest_zero_run(g, i).0),
    decreases g.len() - i,
{
    if i < g.len() {
        lemma_longest(g, i + 1);
    }
}

proof fn lemma_tail_groups_of_join(g: Seq<u16>)
    ensures
        tail_groups_of(join_groups(g)) == Some(g),
{
    lemma_join(g);
    if g.len() > 0 {
        let p = split(join_groups(g), ':');
        let front = p.drop_last();
        assert(front =~= hexes(g.drop_last()));
        assert forall|i: int| 0 <= i < front.len() implies (#[trigger] parse_group(front[i])) is Some by {
            lemma_group(g[i]);
        }
        assert forall|i: int| 0 <= i < front.len() implies group_values(front)[i] == g[i] by {
            lemma_group(g[i]);
        }
        lemma_group(g.last());
        assert(p.last() == hex_digits(g.last() as nat));
        assert(last_piece(p.last()) == Some(seq![g.last()]));
        assert(group_values(front) + seq![g.last()] =~= g);
    }
}

proof fn lemma_ip6_mapped_round_trip(g: Seq<u16>)
    requires
        is_v4_mapped(g),
    ensures
        parse_ip6(fmt_ip6(g)) == Some(v6_of(g)),
        lacks(fmt_ip6(g), '/'),
{
    let (b0, b1, b2, b3) = ((g[6] / 256) as u8, (g[6] % 256) as u8, (g[7] / 256) as u8, (g[7] % 256) as u8);
    let v = fmt_ip4(b0, b1, b2, b3);
    let h = hex_digits(0xffff);
    lemma_ip4_round_trip(b0, b1, b2, b3);
    lemma_hex_digits(0xffff);
    lemma_digits_lack(h);
    lemma_group(0xffff);
    let t = fmt_ip6(g);
    assert(t == seq![':', ':'] + h + seq![':'] + v);
    lemma_double_colon_at(t, 0);
    assert(t.take(0) =~= Seq::<char>::empty());
    let right = t.skip(2);
    assert(right =~= h + seq![':'] + v);
    lemma_split_cons(h, v, ':');
    lemma_split_none(v, ':');
    let p = split(right, ':');
    assert(p =~= seq![h, v]);
    assert(p.drop_last() =~= seq![h]);
    assert(group_values(p.drop_last()) =~= seq![0xffffu16]);
    assert(parse_group(v) is None);
    assert(last_piece(v) == Some(seq![g[6], g[7]]));
    assert(tail_groups_of(right) == Some(seq![0xffffu16, g[6], g[7]]));
    assert(Seq::<u16>::empty() + zeros(5) + seq![0xffffu16, g[6], g[7]] =~= g);
    assert forall|k: int| 0 <= k < t.len() implies #[trigger] t[k] != '/' by {
        if 3 <= k < 2 + h.len() {
            assert(t[k] == h[k - 2]);
        } else if k >= 3 + h.len() {
            assert(t[k] == v[k - 3 - h.len()]);
        }
    }
}

proof fn lemma_ip6_compressed_round_trip(g: Seq<u16>)
    requires
        g.len() == 8,
        !is_v4_mapped(g),
        longest_zero_run(g, 0).1 >= 2,
    ensures
        parse_ip6(fmt_ip6(g)) == Some(v6_of(g)),
        lacks(fmt_ip6(g), '/'),
{
    let t = fmt_ip6(g);
    let (s, l) = longest_zero_run(g, 0);
    lemma_longest(g, 0);
    lemma_zero_run(g, s);
    let left = g.take(s as int);
    let right = g.skip((s + l) as int);
    let jl = join_groups(left);
    let jr = join_groups(right);
    lemma_join(left);
    lemma_join(right);
    assert(t == jl + seq![':', ':'] + jr);
    assert forall|k: int| 0 <= k < jl.len() && k + 1 < t.len() implies !(#[trigger] t[k] == ':'
        && t[k + 1] == ':') by {
        assert(t[k] == jl[k]);
        if k + 1 < jl.len() {
            assert(t[k + 1] == jl[k + 1]);
        } else {
            assert(jl.last() == jl[k]);
        }
    }
    lemma_double_colon_at(t, jl.len() as int);
    assert(t.take(jl.len() as int) =~= jl);
    assert(t.skip(jl.len() + 2 as int) =~= jr);
    lemma_groups_of_join(left);
    lemma_tail_groups_of_join(right);
    assert forall|k: int| s <= k < s + l implies g[k] == 0 by {
        assert(g[s + (k - s)] == 0);
    }
    assert(left + zeros((8 - left.len() - right.len()) as nat) + right =~= g);
    assert forall|k: int| 0 <= k < t.len() implies #[trigger] t[k] != '/' by {
        if k < jl.len() {
            assert(t[k] == jl[k]);
        } else if k >= jl.len() + 2 {
            assert(t[k] == jr[k - jl.len() - 2]);
        }
    }
}

proof fn lemma_ip6_round_trip(a: IpAddr)
    requires
        a is V6,
    ensures
        parse_ip6(fmt_ip6(groups_of_v6(a))) == Some(a),
        lacks(fmt_ip6(groups_of_v6(a)), '/'),
{
    let g = groups_of_v6(a);
    assert(v6_of(g) == a);
    if is_v4_mapped(g) {
        lemma_ip6_mapped_round_trip(g);
    } else if longest_zero_run(g, 0).1 >= 2 {
        lemma_ip6_compressed_round_trip(g);
    } else {
        let t = fmt_ip6(g);
        assert(t == join_groups(g));
        lemma_join(g);
        lemma_double_colon_at(t, t.len() as int);
        lemma_tail_groups_of_join(g);
    }
}

/// The text of an address reads back as that address, and holds no `/`.
pub proof fn lemma_ip_round_trip(a: IpAddr)
    ensures
        a is V4 ==> parse_ip4(fmt_ip(a)) == Some(a),
        a is V6 ==> parse_ip6(fmt_ip(a)) == Some(a),
        lacks(fmt_ip(a), '/'),
{
    match a {
        IpAddr::V4(x, y, z, w) => lemma_ip4_round_trip(x, y, z, w),
        IpAddr::V6(..) => lemma_ip6_round_trip(a),
    }
}

/// What the parser can produce: a `dns` host holds no `/`, and an HTTP layer
/// comes last, with a path that starts with `/`.
pub open spec fn layer_wf(m: Seq<ProtocolView>, i: int) -> bool {
    match m[i] {
        ProtocolView::Dns(h) => lacks(h, '/'),
        ProtocolView::Http(p) => i == m.len() - 1 && p.len() >= 1 && p[0] == '/',
        _ => true,
    }
}

pub open spec fn layers_wf(m: Seq<ProtocolView>) -> bool {
    forall|i: int| 0 <= i < m.len() ==> #[trigger] layer_wf(m, i)
}

/// What one layer reads back as after formatting, given whether the address
/// has an HTTP layer and a TLS layer.
pub open spec fn canon_layer(x: ProtocolView, http: bool, tls: bool) -> Seq<ProtocolView> {
    match x {
        ProtocolView::Tls => if http {
            Seq::empty()
        } else {
            seq![ProtocolView::Tls]
        },
        ProtocolView::Http(p) => if tls {
            seq![ProtocolView::Tls, ProtocolView::Http(p)]
        } else {
            seq![x]
        },
        _ => seq![x],
    }
}

/// The normal form of an address: what its text reads back as.
pub open spec fn canon(m: Seq<ProtocolView>, http: bool, tls: bool) -> Seq<ProtocolView>
    decreases m.len(),
{
    if m.len() == 0 {
        Seq::empty()
    } else {
        canon_layer(m[0], http, tls) + canon(m.drop_first(), http, tls)
    }
}

proof fn lemma_fmt_concat(a: Seq<ProtocolView>, b: Seq<ProtocolView>, h: bool, t: bool)
    ensures
        fmt_layers(a + b, h, t) == fmt_layers(a, h, t) + fmt_layers(b, h, t),
    decreases b.len(),
{
    if b.len() == 0 {
        assert(a + b =~= a);
        assert(fmt_layers(a, h, t) + Seq::<char>::empty() =~= fmt_layers(a, h, t));
    } else {
        lemma_fmt_concat(a, b.drop_last(), h, t);
        assert((a + b).drop_last() =~= a + b.drop_last());
        assert((a + b).last() == b.last());
        assert(fmt_layers(a, h, t) + fmt_layers(b.drop_last(), h, t) + fmt_layer(b.last(), h, t)
            =~= fmt_layers(a, h, t) + (fmt_layers(b.drop_last(), h, t) + fmt_layer(b.last(), h, t)));
    }
}

proof fn lemma_fmt_one(x: ProtocolView, h: bool, t: bool)
    ensures
        fmt_layers(seq![x], h, t) == fmt_layer(x, h, t),
{
    let m = seq![x];
    assert(m.drop_last() =~= Seq::<ProtocolView>::empty());
    assert(m.last() == x);
    assert(fmt_layers(m.drop_last(), h, t) == Seq::<char>::empty());
    assert(fmt_layers(m, h, t) == fmt_layers(m.drop_last(), h, t) + fmt_layer(m.last(), h, t));
    assert(Seq::<char>::empty() + fmt_layer(x, h, t) =~= fmt_layer(x, h, t));
}

proof fn lemma_has_cons(x: ProtocolView, r: Seq<ProtocolView>)
    ensures
        has_http(seq![x] + r) == (x is Http || has_http(r)),
        has_tls(seq![x] + r) == (x is Tls || has_tls(r)),
{
    let m = seq![x] + r;
    assert(m[0] == x);
    if has_http(r) {
        let i = choose|i: int| 0 <= i < r.len() && (#[trigger] r[i]) is Http;
        assert(m[i + 1] == r[i]);
    }
    if has_tls(r) {
        let i = choose|i: int| 0 <= i < r.len() && (#[trigger] r[i]) is Tls;
        assert(m[i + 1] == r[i]);
    }
    if has_http(m) {
        let i = choose|i: int| 0 <= i < m.len() && (#[trigger] m[i]) is Http;
        if i > 0 {
            assert(r[i - 1] == m[i]);
        }
    }
    if has_tls(m) {
        let i = choose|i: int| 0 <= i < m.len() && (#[trigger] m[i]) is Tls;
        if i > 0 {
            assert(r[i - 1] == m[i]);
        }
    }
}

proof fn lemma_has_concat(a: Seq<ProtocolView>, b: Seq<ProtocolView>)
    ensures
        has_http(a + b) == (has_http(a) || has_http(b)),
        has_tls(a + b) == (has_tls(a) || has_tls(b)),
    decreases a.len(),
{
    if a.len() == 0 {
        assert(a + b =~= b);
        assert(!has_http(a) && !has_tls(a));
    } else {
        lemma_has_concat(a.drop_first(), b);
        assert(a =~= seq![a[0]] + a.drop_first());
        assert(a + b =~= seq![a[0]] + (a.drop_first() + b));
        lemma_has_cons(a[0], a.drop_first() + b);
        lemma_has_cons(a[0], a.drop_first());
    }
}

proof fn lemma_canon_flags(m: Seq<ProtocolView>, h: bool, t: bool)
    ensures
        has_http(canon(m, h, t)) == has_http(m),
        has_tls(canon(m, h, t)) == ((!h && has_tls(m)) || (t && has_http(m))),
    decreases m.len(),
{
    if m.len() == 0 {
        assert(!has_http(m) && !has_tls(m));
        assert(!has_http(canon(m, h, t)) && !has_tls(canon(m, h, t)));
    } else {
        let x = m[0];
        let r = m.drop_first();
        lemma_canon_flags(r, h, t);
        assert(m =~= seq![x] + r);
        lemma_has_cons(x, r);
        lemma_has_concat(canon_layer(x, h, t), canon(r, h, t));
        let c = canon_layer(x, h, t);
        match x {
            ProtocolView::Tls => {
                if h {
                    assert(!has_http(c) && !has_tls(c));
                } else {
                    assert(c[0] is Tls);
                    assert(!has_http(c));
                }
            },
            ProtocolView::Http(p) => {
                if t {
                    assert(c[0] is Tls);
                    assert(c[1] is Http);
                    assert(has_http(c) && has_tls(c));
                } else {
                    assert(c[0] is Http);
                    assert(has_http(c));
                    assert(!has_tls(c));
                }
            },
            _ => {
                assert(c =~= seq![x]);
                assert(!has_http(c) && !has_tls(c));
            },
        }
    }
}

proof fn lemma_fmt_canon(m: Seq<ProtocolView>, h: bool, t: bool)
    requires
        has_http(m) ==> h,
    ensures
        fmt_layers(canon(m, h, t), h, t) == fmt_layers(m, h, t),
    decreases m.len(),
{
    if m.len() > 0 {
        let x = m[0];
        let r = m.drop_first();
        assert(m =~= seq![x] + r);
        lemma_has_cons(x, r);
        lemma_fmt_canon(r, h, t);
        lemma_fmt_concat(canon_layer(x, h, t), canon(r, h, t), h, t);
        lemma_fmt_concat(seq![x], r, h, t);
        lemma_fmt_one(x, h, t);
        let c = canon_layer(x, h, t);
        match x {
            ProtocolView::Tls => {
                if h {
                    assert(fmt_layers(c, h, t) =~= Seq::<char>::empty());
                } else {
                    lemma_fmt_one(x, h, t);
                }
            },
            ProtocolView::Http(p) => {
                if t {
                    lemma_fmt_concat(seq![ProtocolView::Tls], seq![x], h, t);
                    lemma_fmt_one(ProtocolView::Tls, h, t);
                    assert(c =~= seq![ProtocolView::Tls] + seq![x]);
                    assert(Seq::<char>::empty() + fmt_layer(x, h, t) =~= fmt_layer(x, h, t));
                }
            },
            _ => {},
        }
    }
}

proof fn lemma_seg_end(s: Seq<char>, pos: int, j: int)
    requires
        0 <= pos <= j <= s.len(),
        forall|k: int| pos <= k < j ==> #[trigger] s[k] != '/',
        j == s.len() || s[j] == '/',
    ensures
        seg_end(s, pos) == j,
{
    let sub = s.subrange(pos, s.len() as int);
    assert forall|k: int| 0 <= k < j - pos implies sub[k] != '/' by {
        assert(sub[k] == s[pos + k]);
    }
    lemma_first_index(sub, '/', j - pos);
}

proof fn lemma_seg_end_bound(s: Seq<char>, pos: int)
    requires
        0 <= pos <= s.len(),
    ensures
        pos <= seg_end(s, pos) <= s.len(),
        forall|k: int| pos <= k < seg_end(s, pos) ==> #[trigger] s[k] != '/',
{
    let sub = s.subrange(pos, s.len() as int);
    lemma_first_index_bound(sub, '/');
    assert forall|k: int| pos <= k < seg_end(s, pos) implies #[trigger] s[k] != '/' by {
        assert(sub[k - pos] == s[k]);
    }
}

/// What follows a prefix is parsed as it would be alone.
proof fn lemma_parse_suffix(p: Seq<char>, x: Seq<char>, j: int)
    requires
        0 <= j,
    ensures
        parse_from(p + x, p.len() + j) == parse_from(x, j),
    decreases x.len() - j,
{
    let s = p + x;
    let n = p.len() as int;
    if j < x.len() {
        lemma_seg_end_bound(x, j);
        let e = seg_end(x, j);
        assert(s.subrange(n + j, s.len() as int) =~= x.subrange(j, x.len() as int));
        assert(seg_end(s, n + j) == n + e);
        assert(s.subrange(n + j, n + e) =~= x.subrange(j, e));
        let next = after(x, e);
        assert(after(s, n + e) == n + next);
        lemma_seg_end_bound(x, next);
        let e2 = seg_end(x, next);
        assert(s.subrange(n + next, s.len() as int) =~= x.subrange(next, x.len() as int));
        assert(seg_end(s, n + next) == n + e2);
        assert(s.subrange(n + next, n + e2) =~= x.subrange(next, e2));
        assert(after(s, n + e2) == n + after(x, e2));
        lemma_parse_suffix(p, x, next);
        lemma_parse_suffix(p, x, after(x, e2));
    }
}

proof fn lemma_words()
    ensures
        "dns"@ == seq!['d', 'n', 's'],
        "ip4"@ == seq!['i', 'p', '4'],
        "ip6"@ == seq!['i', 'p', '6'],
        "tcp"@ == seq!['t', 'c', 'p'],
        "tls"@ == seq!['t', 'l', 's'],
        "http"@ == seq!['h', 't', 't', 'p'],
        "https"@ == seq!['h', 't', 't', 'p', 's'],
        "/dns/"@ == seq!['/', 'd', 'n', 's', '/'],
        "/ip4/"@ == seq!['/', 'i', 'p', '4', '/'],
        "/ip6/"@ == seq!['/', 'i', 'p', '6', '/'],
        "/tcp/"@ == seq!['/', 't', 'c', 'p', '/'],
        "/tls"@ == seq!['/', 't', 'l', 's'],
        "/http"@ == seq!['/', 'h', 't', 't', 'p'],
        "/https"@ == seq!['/', 'h', 't', 't', 'p', 's'],
        "/"@ == seq!['/'],
{
    reveal_strlit("dns");
    reveal_strlit("ip4");
    reveal_strlit("ip6");
    reveal_strlit("tcp");
    reveal_strlit("tls");
    reveal_strlit("http");
    reveal_strlit("https");
    reveal_strlit("/dns/");
    reveal_strlit("/ip4/");
    reveal_strlit("/ip6/");
    reveal_strlit("/tcp/");
    reveal_strlit("/tls");
    reveal_strlit("/http");
    reveal_strlit("/https");
    reveal_strlit("/");
    assert("dns"@ =~= seq!['d', 'n', 's']);
    assert("ip4"@ =~= seq!['i', 'p', '4']);
    assert("ip6"@ =~= seq!['i', 'p', '6']);
    assert("tcp"@ =~= seq!['t', 'c', 'p']);
    assert("tls"@ =~= seq!['t', 'l', 's']);
    assert("http"@ =~= seq!['h', 't', 't', 'p']);
    assert("https"@ =~= seq!['h', 't', 't', 'p', 's']);
    assert("/dns/"@ =~= seq!['/', 'd', 'n', 's', '/']);
    assert("/ip4/"@ =~= seq!['/', 'i', 'p', '4', '/']);
    assert("/ip6/"@ =~= seq!['/', 'i', 'p', '6', '/']);
    assert("/tcp/"@ =~= seq!['/', 't', 'c', 'p', '/']);
    assert("/tls"@ =~= seq!['/', 't', 'l', 's']);
    assert("/http"@ =~= seq!['/', 'h', 't', 't', 'p']);
    assert("/https"@ =~= seq!['/', 'h', 't', 't', 'p', 's']);
    assert("/"@ =~= seq!['/']);
}

proof fn lemma_wf_prepend(x: ProtocolView, r: Seq<ProtocolView>)
    requires
        layers_wf(r),
        !(x is Http),
        x is Dns ==> lacks(x->Dns_0, '/'),
    ensures
        layers_wf(seq![x] + r),
{
    let m = seq![x] + r;
    assert forall|i: int| 0 <= i < m.len() implies #[trigger] layer_wf(m, i) by {
        if i > 0 {
            assert(m[i] == r[i - 1]);
            assert(layer_wf(r, i - 1));
        }
    }
}

/// The parser's output is well formed.
proof fn lemma_parse_wf(s: Seq<char>, pos: int)
    requires
        parse_from(s, pos) is Some,
    ensures
        layers_wf(parse_from(s, pos)->0),
    decreases s.len() - pos,
{
    if 0 <= pos < s.len() {
        lemma_seg_end_bound(s, pos);
        let e = seg_end(s, pos);
        let tok = s.subrange(pos, e);
        let next = after(s, e);
        lemma_seg_end_bound(s, next);
        let e2 = seg_end(s, next);
        let value = s.subrange(next, e2);
        let rest = after(s, e2);
        if tok == "dns"@ {
            lemma_parse_wf(s, rest);
            assert forall|k: int| 0 <= k < value.len() implies #[trigger] value[k] != '/' by {
                assert(value[k] == s[next + k]);
            }
            lemma_wf_prepend(ProtocolView::Dns(value), parse_from(s, rest)->0);
        } else if tok == "ip4"@ || tok == "ip6"@ || tok == "tcp"@ {
            lemma_parse_wf(s, rest);
            let r = parse_from(s, rest)->0;
            if tok == "ip4"@ {
                lemma_wf_prepend(ProtocolView::Ip(parse_ip4(value)->0), r);
            } else if tok == "ip6"@ {
                lemma_wf_prepend(ProtocolView::Ip(parse_ip6(value)->0), r);
            } else {
                lemma_wf_prepend(ProtocolView::Tcp(parse_port(value)->0), r);
            }
        } else if tok == "tls"@ {
            lemma_parse_wf(s, next);
            lemma_wf_prepend(ProtocolView::Tls, parse_from(s, next)->0);
        } else if tok == "http"@ || tok == "https"@ {
            let m = parse_from(s, pos)->0;
            assert forall|i: int| 0 <= i < m.len() implies #[trigger] layer_wf(m, i) by {}
        } else {
            lemma_parse_wf(s, next);
        }
    }
}

/// Reading `/w` followed by `r`, which is empty or starts with `/`, from position 1.
proof fn lemma_read_word(w: Seq<char>, r: Seq<char>)
    requires
        (w.len() as int) >= 1,
        lacks(w, '/'),
        r.len() == 0 || r[0] == '/',
    ensures
        ({
            let f = seq!['/'] + w + r;
            &&& seg_end(f, 1) == 1 + (w.len() as int)
            &&& f.subrange(1, 1 + (w.len() as int)) == w
            &&& after(f, 1 + (w.len() as int)) == (if r.len() > 0 {
                2 + (w.len() as int)
            } else {
                f.len() as int
            })
            &&& (r.len() > 0 ==> f.subrange(2 + (w.len() as int), f.len() as int) == r.skip(1))
            &&& parse_from(f, after(f, 1 + (w.len() as int))) == (if r.len() > 0 {
                parse_from(r, 1)
            } else {
                Some(Seq::<ProtocolView>::empty())
            })
        }),
{
    let f = seq!['/'] + w + r;
    let n: int = 1 + (w.len() as int);
    assert forall|k: int| 1 <= k < n implies #[trigger] f[k] != '/' by {
        assert(f[k] == w[k - 1]);
    }
    if r.len() > 0 {
        assert(f[n] == r[0]);
    }
    lemma_seg_end(f, 1, n);
    assert(f.subrange(1, n) =~= w);
    if r.len() > 0 {
        assert(f.subrange(n + 1, f.len() as int) =~= r.skip(1));
        assert(f =~= (seq!['/'] + w) + r);
        lemma_parse_suffix(seq!['/'] + w, r, 1);
    }
}

/// Reading `/w/v` followed by `r`, which is empty or starts with `/`, from position 1.
proof fn lemma_read_valued(w: Seq<char>, v: Seq<char>, r: Seq<char>)
    requires
        (w.len() as int) >= 1,
        lacks(w, '/'),
        lacks(v, '/'),
        r.len() == 0 || r[0] == '/',
    ensures
        ({
            let f = seq!['/'] + w + seq!['/'] + v + r;
            let next = 2 + (w.len() as int);
            &&& seg_end(f, 1) == 1 + (w.len() as int)
            &&& f.subrange(1, 1 + (w.len() as int)) == w
            &&& after(f, 1 + (w.len() as int)) == next
            &&& seg_end(f, next) == next + (v.len() as int)
            &&& f.subrange(next, next + (v.len() as int)) == v
            &&& parse_from(f, after(f, next + (v.len() as int))) == (if r.len() > 0 {
                parse_from(r, 1)
            } else {
                Some(Seq::<ProtocolView>::empty())
            })
        }),
{
    let f = seq!['/'] + w + seq!['/'] + v + r;
    let n: int = 1 + (w.len() as int);
    let next = n + 1;
    let e2 = next + (v.len() as int);
    assert forall|k: int| 1 <= k < n implies #[trigger] f[k] != '/' by {
        assert(f[k] == w[k - 1]);
    }
    assert(f[n] == '/');
    lemma_seg_end(f, 1, n);
    assert(f.subrange(1, n) =~= w);
    assert forall|k: int| next <= k < e2 implies #[trigger] f[k] != '/' by {
        assert(f[k] == v[k - next]);
    }
    if r.len() > 0 {
        assert(f[e2] == r[0]);
    }
    lemma_seg_end(f, next, e2);
    assert(f.subrange(next, e2) =~= v);
    if r.len() > 0 {
        assert(f =~= (seq!['/'] + w + seq!['/'] + v) + r);
        lemma_parse_suffix(seq!['/'] + w + seq!['/'] + v, r, 1);
    }
}

/// `r` is empty or starts with `/`, and reads back as `c`.
pub open spec fn reads_back(r: Seq<char>, c: Seq<ProtocolView>) -> bool {
    &&& r.len() == 0 || r[0] == '/'
    &&& r.len() > 0 ==> parse_from(r, 1) == Some(c)
    &&& r.len() == 0 ==> c == Seq::<ProtocolView>::empty()
}

proof fn lemma_parse_dns(hn: Seq<char>, rr: Seq<char>, cr: Seq<ProtocolView>)
    requires
        lacks(hn, '/'),
        reads_back(rr, cr),
    ensures
        parse_from("/dns/"@ + hn + rr, 1) == Some(seq![ProtocolView::Dns(hn)] + cr),
{
    lemma_words();
    let w = seq!['d', 'n', 's'];
    let f = "/dns/"@ + hn + rr;
    assert(f =~= seq!['/'] + w + seq!['/'] + hn + rr);
    lemma_read_valued(w, hn, rr);
}

proof fn lemma_parse_ip4(a: IpAddr, rr: Seq<char>, cr: Seq<ProtocolView>)
    requires
        a is V4,
        reads_back(rr, cr),
    ensures
        parse_from("/ip4/"@ + fmt_ip(a) + rr, 1) == Some(seq![ProtocolView::Ip(a)] + cr),
{
    lemma_words();
    lemma_ip_round_trip(a);
    let v = fmt_ip(a);
    let w = seq!['i', 'p', '4'];
    let f = "/ip4/"@ + v + rr;
    assert(f =~= seq!['/'] + w + seq!['/'] + v + rr);
    lemma_read_valued(w, v, rr);
    assert(w[0] != "dns"@[0]);
    assert(parse_ip4(v) == Some(a));
}

#[verifier::rlimit(40)]
proof fn lemma_parse_ip6(a: IpAddr, rr: Seq<char>, cr: Seq<ProtocolView>)
    requires
        a is V6,
        reads_back(rr, cr),
    ensures
        parse_from("/ip6/"@ + fmt_ip(a) + rr, 1) == Some(seq![ProtocolView::Ip(a)] + cr),
{
    lemma_words();
    lemma_ip_round_trip(a);
    let v = fmt_ip(a);
    let w = seq!['i', 'p', '6'];
    let f = "/ip6/"@ + v + rr;
    assert(f =~= seq!['/'] + w + seq!['/'] + v + rr);
    lemma_read_valued(w, v, rr);
    assert(w[0] != "dns"@[0]);
    assert(w[2] != "ip4"@[2]);
    assert(parse_ip6(v) == Some(a));
}

proof fn lemma_parse_tcp(p: u16, rr: Seq<char>, cr: Seq<ProtocolView>)
    requires
        reads_back(rr, cr),
    ensures
        parse_from("/tcp/"@ + dec_digits(p as nat) + rr, 1) == Some(seq![ProtocolView::Tcp(p)] + cr),
{
    lemma_words();
    let v = dec_digits(p as nat);
    lemma_dec_digits(p as nat);
    lemma_digits_lack(v);
    lemma_port_round_trip(p);
    let w = seq!['t', 'c', 'p'];
    let f = "/tcp/"@ + v + rr;
    assert(f =~= seq!['/'] + w + seq!['/'] + v + rr);
    lemma_read_valued(w, v, rr);
    assert(w[0] != "dns"@[0]);
    assert(w[0] != "ip4"@[0]);
    assert(w[0] != "ip6"@[0]);
}

proof fn lemma_parse_tls(rr: Seq<char>, cr: Seq<ProtocolView>)
    requires
        reads_back(rr, cr),
    ensures
        parse_from("/tls"@ + rr, 1) == Some(seq![ProtocolView::Tls] + cr),
{
    lemma_words();
    let w = seq!['t', 'l', 's'];
    let f = "/tls"@ + rr;
    assert(f =~= seq!['/'] + w + rr);
    lemma_read_word(w, rr);
    assert(w[0] != "dns"@[0]);
    assert(w[0] != "ip4"@[0]);
    assert(w[0] != "ip6"@[0]);
    assert(w[1] != "tcp"@[1]);
}

proof fn lemma_parse_http(p: Seq<char>, h: bool, t: bool)
    requires
        p.len() >= 1,
        p[0] == '/',
    ensures
        parse_from(fmt_layer(ProtocolView::Http(p), h, t), 1) == Some(
            canon_layer(ProtocolView::Http(p), h, t),
        ),
        fmt_layer(ProtocolView::Http(p), h, t).len() >= 5,
        fmt_layer(ProtocolView::Http(p), h, t)[0] == '/',
        fmt_layer(ProtocolView::Http(p), h, t)[1] == 'h',
{
    lemma_words();
    let f = fmt_layer(ProtocolView::Http(p), h, t);
    let suffix = if p == "/"@ || p.len() == 0 {
        Seq::<char>::empty()
    } else {
        p
    };
    let w = if t {
        seq!['h', 't', 't', 'p', 's']
    } else {
        seq!['h', 't', 't', 'p']
    };
    assert(f =~= seq!['/'] + w + suffix);
    lemma_read_word(w, suffix);
    let path = seq!['/'] + f.subrange(after(f, 1 + (w.len() as int)), f.len() as int);
    if suffix.len() > 0 {
        assert(path =~= p);
    } else {
        assert(p =~= seq!['/']);
        assert(path =~= p);
    }
}

/// The text of well-formed layers reads back as their normal form.
#[verifier::rlimit(60)]
proof fn lemma_parse_fmt(m: Seq<ProtocolView>, h: bool, t: bool)
    requires
        layers_wf(m),
    ensures
        reads_back(fmt_layers(m, h, t), canon(m, h, t)),
        fmt_layers(m, h, t).len() > 0 ==> fmt_layers(m, h, t).len() >= 2 && fmt_layers(m, h, t)[1]
            != '/',
    decreases m.len(),
{
    if m.len() == 0 {
        return;
    }
    let x = m[0];
    let r = m.drop_first();
    assert(m =~= seq![x] + r);
    assert forall|i: int| 0 <= i < r.len() implies #[trigger] layer_wf(r, i) by {
        assert(r[i] == m[i + 1]);
        assert(layer_wf(m, i + 1));
    }
    assert(layer_wf(m, 0));
    lemma_parse_fmt(r, h, t);
    lemma_fmt_concat(seq![x], r, h, t);
    lemma_fmt_one(x, h, t);
    lemma_words();
    let rr = fmt_layers(r, h, t);
    let f = fmt_layers(m, h, t);
    let cr = canon(r, h, t);
    assert(f == fmt_layer(x, h, t) + rr);
    assert(canon(m, h, t) == canon_layer(x, h, t) + cr);
    match x {
        ProtocolView::Dns(hn) => {
            lemma_parse_dns(hn, rr, cr);
        },
        ProtocolView::Ip(a) => {
            if a is V4 {
                lemma_parse_ip4(a, rr, cr);
            } else {
                lemma_parse_ip6(a, rr, cr);
            }
        },
        ProtocolView::Tcp(p) => {
            lemma_parse_tcp(p, rr, cr);
        },
        ProtocolView::Tls => {
            if h {
                assert(f =~= rr);
                assert(canon(m, h, t) =~= cr);
            } else {
                lemma_parse_tls(rr, cr);
            }
        },
        ProtocolView::Http(p) => {
            assert(r.len() == 0);
            assert(rr.len() == 0);
            assert(cr =~= Seq::<ProtocolView>::empty());
            lemma_parse_http(p, h, t);
            assert(f =~= fmt_layer(x, h, t));
            assert(canon(m, h, t) =~= canon_layer(x, h, t));
        },
    }
}

/// Text that is already normal formats back to itself: the text of any
/// well-formed layers is accepted, reads back as their normal form, and that
/// form formats to the same text.
pub proof fn lemma_normal_text_round_trip(m: Seq<ProtocolView>)
    requires
        layers_wf(m),
    ensures
        parse_multiaddr(fmt_multiaddr(m)) == Some(canon(m, has_http(m), has_tls(m))),
        fmt_multiaddr(parse_multiaddr(fmt_multiaddr(m))->0) == fmt_multiaddr(m),
{
    let h = has_http(m);
    let t = has_tls(m);
    let f = fmt_multiaddr(m);
    lemma_parse_fmt(m, h, t);
    if f.len() > 0 {
        lemma_skip_slashes(f, 0, 1);
    } else {
        lemma_skip_slashes(f, 0, 0);
    }
    let c = canon(m, h, t);
    assert(parse_multiaddr(f) == Some(c));
    lemma_canon_flags(m, h, t);
    lemma_fmt_canon(m, h, t);
}

/// Formatting normalizes a listener address: the text that an accepted
/// address formats to is accepted again, reads back as the address's normal
/// form, and formats to itself.
pub proof fn lemma_format_parse_round_trip(s: Seq<char>)
    requires
        parse_multiaddr(s) is Some,
    ensures
        parse_multiaddr(fmt_multiaddr(parse_multiaddr(s)->0)) == Some(
            canon(
                parse_multiaddr(s)->0,
                has_http(parse_multiaddr(s)->0),
                has_tls(parse_multiaddr(s)->0),
            ),
        ),
        fmt_multiaddr(parse_multiaddr(fmt_multiaddr(parse_multiaddr(s)->0))->0) == fmt_multiaddr(
            parse_multiaddr(s)->0,
        ),
{
    lemma_parse_wf(s, skip_slashes(s, 0));
    lemma_normal_text_round_trip(parse_multiaddr(s)->0);
}

} // verus!
