//! IP and socket addresses as plain values, with the textual notation of IP addresses.
use crate::text::{
    chars, digits_value, is_digit, is_digits, pieces, split, split_once_around, split_once_text,
};
use vstd::prelude::*;
use vstd::string::*;

verus! {

/// An IP address as its octets in network order.
#[derive(Debug, Clone, Copy, PartialEq, Eq)]
pub enum IpAddr {
    V4([u8; 4]),
    V6([u8; 16]),
}

/// An IP address and a port. The last two fields have a meaning for version 6 alone.
#[derive(Debug, Clone, Copy, PartialEq, Eq)]
pub struct SocketAddr {
    pub ip: IpAddr,
    pub port: u16,
    pub flowinfo: u32,
    pub scope_id: u32,
}

/// The content of an [`IpAddr`].
pub enum IpView {
    V4(Seq<u8>),
    V6(Seq<u8>),
}

impl View for IpAddr {
    type V = IpView;

    open spec fn view(&self) -> IpView {
        match self {
            IpAddr::V4(o) => IpView::V4(o@),
            IpAddr::V6(o) => IpView::V6(o@),
        }
    }
}

/// The content of a [`SocketAddr`].
pub struct SocketView {
    pub ip: IpView,
    pub port: u16,
    pub flowinfo: u32,
    pub scope_id: u32,
}

impl View for SocketAddr {
    type V = SocketView;

    open spec fn view(&self) -> SocketView {
        SocketView {
            ip: self.ip@,
            port: self.port,
            flowinfo: self.flowinfo,
            scope_id: self.scope_id,
        }
    }
}

// ---------------------------------------------------------------------------
// Specifications
// ---------------------------------------------------------------------------
/// A decimal octet: at most 255, without leading zeros.
pub open spec fn octet_of(s: Seq<char>) -> Option<u8> {
    if is_digits(s) && s.len() <= 3 && (s.len() == 1 || s[0] != '0') && digits_value(s) <= 255 {
        Some(digits_value(s) as u8)
    } else {
        None
    }
}

/// Four decimal octets between dots.
pub open spec fn ipv4_of(s: Seq<char>) -> Option<Seq<u8>> {
    let p = pieces(s, '.');
    if p.len() == 4 && octet_of(p[0]) is Some && octet_of(p[1]) is Some && octet_of(p[2]) is Some
        && octet_of(p[3]) is Some {
        Some(seq![octet_of(p[0])->0, octet_of(p[1])->0, octet_of(p[2])->0, octet_of(p[3])->0])
    } else {
        None
    }
}

/// The value of a hexadecimal digit.
pub open spec fn hex_value(c: char) -> Option<nat> {
    if '0' <= c <= '9' {
        Some((c as nat - '0' as nat) as nat)
    } else if 'a' <= c <= 'f' {
        Some((c as nat - 'a' as nat + 10) as nat)
    } else if 'A' <= c <= 'F' {
        Some((c as nat - 'A' as nat + 10) as nat)
    } else {
        None
    }
}

/// The number that a run of hexadecimal digits denotes.
pub open spec fn hex_number(s: Seq<char>) -> nat
    decreases s.len(),
{
    if s.len() == 0 {
        0
    } else {
        hex_number(s.drop_last()) * 16 + hex_value(s.last())->0
    }
}

/// A group of one to four hexadecimal digits.
pub open spec fn group_of(s: Seq<char>) -> Option<u16> {
    if 1 <= s.len() <= 4 && (forall|i: int| 0 <= i < s.len() ==> hex_value(#[trigger] s[i]) is Some) {
        Some(hex_number(s) as u16)
    } else {
        None
    }
}

/// The groups that some pieces denote, each a hexadecimal group.
pub open spec fn hex_groups(p: Seq<Seq<char>>) -> Option<Seq<u16>>
    decreases p.len(),
{
    if p.len() == 0 {
        Some(seq![])
    } else {
        match (hex_groups(p.drop_last()), group_of(p.last())) {
            (Some(g), Some(x)) => Some(g.push(x)),
            _ => None,
        }
    }
}

/// Two octets as a group.
pub open spec fn pair(hi: u8, lo: u8) -> u16 {
    (hi * 256 + lo) as u16
}

/// The groups between the colons of a text, which has none when it is empty. Where
/// `tail` says so, the last piece may be an IPv4 address and stands for two groups.
pub open spec fn groups_of(s: Seq<char>, tail: bool) -> Option<Seq<u16>> {
    let p = pieces(s, ':');
    if s.len() == 0 {
        Some(seq![])
    } else if tail && ipv4_of(p.last()) is Some {
        let o = ipv4_of(p.last())->0;
        match hex_groups(p.drop_last()) {
            Some(g) => Some(g + seq![pair(o[0], o[1]), pair(o[2], o[3])]),
            None => None,
        }
    } else {
        hex_groups(p)
    }
}

/// Groups as octets in network order.
pub open spec fn group_octets(g: Seq<u16>) -> Seq<u8> {
    Seq::new(
        2 * g.len(),
        |i: int|
            if i % 2 == 0 {
                (g[i / 2] / 256) as u8
            } else {
                (g[i / 2] % 256) as u8
            },
    )
}

/// Eight groups, or fewer with one run of zero groups left out at "::".
pub open spec fn ipv6_of(s: Seq<char>) -> Option<Seq<u8>> {
    match split_once_around(s, "::"@) {
        Some((head, tail)) => match (groups_of(head, false), groups_of(tail, true)) {
            (Some(h), Some(t)) => if h.len() + t.len() <= 7 {
                Some(
                    group_octets(
                        h + Seq::new((8 - h.len() - t.len()) as nat, |i: int| 0u16) + t,
                    ),
                )
            } else {
                None
            },
            _ => None,
        },
        None => match groups_of(s, true) {
            Some(g) => if g.len() == 8 {
                Some(group_octets(g))
            } else {
                None
            },
            None => None,
        },
    }
}

/// The address that a text denotes, of either version.
pub open spec fn ip_of(s: Seq<char>) -> Option<IpView> {
    match ipv4_of(s) {
        Some(o) => Some(IpView::V4(o)),
        None => match ipv6_of(s) {
            Some(o) => Some(IpView::V6(o)),
            None => None,
        },
    }
}

/// The contents of some datagrams, each with where it goes.
pub open spec fn datagram_views(d: Seq<(Vec<u8>, SocketAddr)>) -> Seq<(Seq<u8>, SocketAddr)> {
    d.map_values(|x: (Vec<u8>, SocketAddr)| (x.0@, x.1))
}

/// The content of an optional address.
pub open spec fn opt_ip(r: Option<IpAddr>) -> Option<IpView> {
    match r {
        Some(ip) => Some(ip@),
        None => None,
    }
}

// ---------------------------------------------------------------------------
// Executable functions
// ---------------------------------------------------------------------------
fn parse_octet(s: &str) -> (r: Option<u8>)
    ensures
        r == octet_of(s@),
{
    let cs = chars(s);
    let n: usize = cs.len();
    if n == 0 || n > 3 {
        return None;
    }
    let mut v: u32 = 0;
    for i in 0..n
        invariant
            cs@ == s@,
            n == cs@.len(),
            n <= 3,
            forall|j: int| 0 <= j < i ==> is_digit(#[trigger] s@[j]),
            v == digits_value(s@.take(i as int)),
            i == 0 ==> v == 0,
            i == 1 ==> v < 10,
            i == 2 ==> v < 100,
            i == 3 ==> v < 1000,
    {
        let c = cs[i];
        if !('0' <= c && c <= '9') {
            assert(!is_digit(s@[i as int]));
            return None;
        }
        assert(s@.take(i + 1).drop_last() =~= s@.take(i as int));
        v = v * 10 + ((c as u8) - 48u8) as u32;
    }
    assert(s@.take(n as int) =~= s@);
    if (n > 1 && cs[0] == '0') || v > 255 {
        return None;
    }
    Some(v as u8)
}

/// Reads four decimal octets between dots.
pub fn parse_ipv4(s: &str) -> (r: Option<[u8; 4]>)
    ensures
        match r {
            Some(o) => ipv4_of(s@) == Some(o@),
            None => ipv4_of(s@) is None,
        },
{
    let p = split(s, '.');
    if p.len() != 4 {
        return None;
    }
    match (
        parse_octet(p[0].as_str()),
        parse_octet(p[1].as_str()),
        parse_octet(p[2].as_str()),
        parse_octet(p[3].as_str()),
    ) {
        (Some(a), Some(b), Some(c), Some(d)) => {
            let o: [u8; 4] = [a, b, c, d];
            assert(o@ =~= seq![a, b, c, d]);
            Some(o)
        },
        _ => None,
    }
}

fn hex_digit(c: char) -> (r: Option<u16>)
    ensures
        match r {
            Some(d) => hex_value(c) == Some(d as nat) && d < 16,
            None => hex_value(c) is None,
        },
{
    if '0' <= c && c <= '9' {
        Some((c as u16) - 48u16)
    } else if 'a' <= c && c <= 'f' {
        Some((c as u16) - 97u16 + 10)
    } else if 'A' <= c && c <= 'F' {
        Some((c as u16) - 65u16 + 10)
    } else {
        None
    }
}

fn parse_group(s: &str) -> (r: Option<u16>)
    ensures
        r == group_of(s@),
{
    let cs = chars(s);
    let n: usize = cs.len();
    if n == 0 || n > 4 {
        return None;
    }
    let mut v: u32 = 0;
    for i in 0..n
        invariant
            cs@ == s@,
            n == cs@.len(),
            n <= 4,
            forall|j: int| 0 <= j < i ==> hex_value(#[trigger] s@[j]) is Some,
            v == hex_number(s@.take(i as int)),
            i == 0 ==> v == 0,
            i == 1 ==> v < 16,
            i == 2 ==> v < 256,
            i == 3 ==> v < 4096,
            i == 4 ==> v < 65536,
    {
        match hex_digit(cs[i]) {
            Some(d) => {
                assert(s@.take(i + 1).drop_last() =~= s@.take(i as int));
                v = v * 16 + d as u32;
            },
            None => {
                assert(hex_value(s@[i as int]) is None);
                return None;
            },
        }
    }
    assert(s@.take(n as int) =~= s@);
    Some(v as u16)
}

proof fn lemma_hex_groups(p: Seq<Seq<char>>, i: int)
    requires
        0 <= i <= p.len(),
        hex_groups(p) is Some,
    ensures
        hex_groups(p.take(i)) is Some,
    decreases p.len() - i,
{
    if i < p.len() {
        lemma_hex_groups(p, i + 1);
        assert(p.take(i + 1).drop_last() =~= p.take(i));
    } else {
        assert(p.take(i) =~= p);
    }
}

/// The groups of the first `n` pieces.
fn parse_hex_groups(p: &Vec<String>, n: usize) -> (r: Option<Vec<u16>>)
    requires
        n <= p@.len(),
    ensures
        match r {
            Some(g) => hex_groups(p@.take(n as int).map_values(|s: String| s@)) == Some(g@),
            None => hex_groups(p@.take(n as int).map_values(|s: String| s@)) is None,
        },
{
    let ghost all = p@.take(n as int).map_values(|s: String| s@);
    let mut g: Vec<u16> = Vec::new();
    for i in 0..n
        invariant
            n <= p@.len(),
            all == p@.take(n as int).map_values(|s: String| s@),
            hex_groups(all.take(i as int)) == Some(g@),
    {
        assert(all.take(i + 1).drop_last() =~= all.take(i as int));
        assert(all.take(i + 1).last() == p@[i as int]@);
        match parse_group(p[i].as_str()) {
            Some(x) => {
                g.push(x);
            },
            None => {
                proof {
                    if hex_groups(all) is Some {
                        lemma_hex_groups(all, i + 1);
                    }
                }
                return None;
            },
        }
    }
    assert(all.take(n as int) =~= all);
    Some(g)
}

fn parse_groups(s: &str, tail: bool) -> (r: Option<Vec<u16>>)
    ensures
        match r {
            Some(g) => groups_of(s@, tail) == Some(g@),
            None => groups_of(s@, tail) is None,
        },
{
    if s.is_empty() {
        let none: Vec<u16> = Vec::new();
        assert(none@ =~= seq![]);
        return Some(none);
    }
    let p = split(s, ':');
    let n: usize = p.len();
    let ghost q = pieces(s@, ':');
    assert(n > 0) by {
        assert(q.len() > 0);
    }
    if tail {
        match parse_ipv4(p[n - 1].as_str()) {
            Some(o) => {
                assert(p@.take(n - 1).map_values(|s: String| s@) =~= q.drop_last());
                return match parse_hex_groups(&p, n - 1) {
                    Some(mut g) => {
                        let ghost head = g@;
                        g.push(o[0] as u16 * 256 + o[1] as u16);
                        g.push(o[2] as u16 * 256 + o[3] as u16);
                        assert(g@ =~= head + seq![pair(o@[0], o@[1]), pair(o@[2], o@[3])]);
                        Some(g)
                    },
                    None => None,
                };
            },
            None => {},
        }
    }
    assert(p@.take(n as int).map_values(|s: String| s@) =~= q);
    parse_hex_groups(&p, n)
}

/// The octets of eight groups.
fn octets_of_groups(g: &Vec<u16>) -> (r: [u8; 16])
    requires
        g@.len() == 8,
    ensures
        r@ == group_octets(g@),
{
    let mut r: [u8; 16] = [0;16];
    for i in 0..8usize
        invariant
            g@.len() == 8,
            forall|j: int| 0 <= j < 2 * i ==> r@[j] == group_octets(g@)[j],
    {
        r[2 * i] = (g[i] / 256) as u8;
        r[2 * i + 1] = (g[i] % 256) as u8;
    }
    assert(r@ =~= group_octets(g@));
    r
}

/// Reads eight groups, or fewer with one run of zero groups left out.
pub fn parse_ipv6(s: &str) -> (r: Option<[u8; 16]>)
    ensures
        match r {
            Some(o) => ipv6_of(s@) == Some(o@),
            None => ipv6_of(s@) is None,
        },
{
    match split_once_text(s, "::") {
        Some((head, tail)) => match (
            parse_groups(head.as_str(), false),
            parse_groups(tail.as_str(), true),
        ) {
            (Some(h), Some(t)) => {
                if h.len() > 7 || t.len() > 7 || h.len() + t.len() > 7 {
                    return None;
                }
                let zeros: usize = 8 - h.len() - t.len();
                let mut g: Vec<u16> = Vec::new();
                for i in 0..h.len()
                    invariant
                        g@ == h@.take(i as int),
                {
                    g.push(h[i]);
                }
                let ghost z = Seq::new(zeros as nat, |i: int| 0u16);
                assert(h@.take(h@.len() as int) =~= h@);
                for i in 0..zeros
                    invariant
                        z == Seq::new(zeros as nat, |i: int| 0u16),
                        g@ == h@ + z.take(i as int),
                {
                    g.push(0);
                }
                assert(z.take(zeros as int) =~= z);
                for i in 0..t.len()
                    invariant
                        g@ == h@ + z + t@.take(i as int),
                {
                    g.push(t[i]);
                }
                assert(t@.take(t@.len() as int) =~= t@);
                Some(octets_of_groups(&g))
            },
            _ => None,
        },
        None => match parse_groups(s, true) {
            Some(g) => if g.len() == 8 {
                Some(octets_of_groups(&g))
            } else {
                None
            },
            None => None,
        },
    }
}

fn same_bytes(a: &[u8], b: &[u8]) -> (r: bool)
    ensures
        r == (a@ == b@),
{
    if a.len() != b.len() {
        return false;
    }
    for i in 0..a.len()
        invariant
            a@.len() == b@.len(),
            forall|j: int| 0 <= j < i ==> a@[j] == b@[j],
    {
        if a[i] != b[i] {
            return false;
        }
    }
    assert(a@ =~= b@);
    true
}

impl IpAddr {
    /// Reads an address of either version.
    pub fn parse(s: &str) -> (r: Option<IpAddr>)
        ensures
            opt_ip(r) == ip_of(s@),
    {
        match parse_ipv4(s) {
            Some(o) => Some(IpAddr::V4(o)),
            None => match parse_ipv6(s) {
                Some(o) => Some(IpAddr::V6(o)),
                None => None,
            },
        }
    }

    pub fn is_ipv4(&self) -> (r: bool)
        ensures
            r == (self@ is V4),
    {
        match self {
            IpAddr::V4(_) => true,
            IpAddr::V6(_) => false,
        }
    }

    /// Whether two addresses are the same.
    pub fn same_as(&self, other: &IpAddr) -> (r: bool)
        ensures
            r == (self@ == other@),
    {
        match (self, other) {
            (IpAddr::V4(a), IpAddr::V4(b)) => same_bytes(a.as_slice(), b.as_slice()),
            (IpAddr::V6(a), IpAddr::V6(b)) => same_bytes(a.as_slice(), b.as_slice()),
            _ => false,
        }
    }

    /// The octets of the address in network order.
    pub fn octets(&self) -> (r: Vec<u8>)
        ensures
            r@ == octets_in(self@),
    {
        match self {
            IpAddr::V4(o) => crate::bytes::copy_range(o.as_slice(), 0, 4),
            IpAddr::V6(o) => crate::bytes::copy_range(o.as_slice(), 0, 16),
        }
    }
}

/// The octets of an address in network order.
pub open spec fn octets_in(ip: IpView) -> Seq<u8> {
    match ip {
        IpView::V4(o) => o,
        IpView::V6(o) => o,
    }
}

impl SocketAddr {
    pub fn new(ip: IpAddr, port: u16) -> (r: SocketAddr)
        ensures
            r@ == (SocketView { ip: ip@, port, flowinfo: 0, scope_id: 0 }),
    {
        SocketAddr { ip, port, flowinfo: 0, scope_id: 0 }
    }
}

// ---------------------------------------------------------------------------
// Laws
// ---------------------------------------------------------------------------
/// Four octets in writing, with dots between them.
pub open spec fn dotted(o: Seq<u8>) -> Seq<char> {
    crate::text::decimal(o[0] as nat) + seq!['.'] + (crate::text::decimal(o[1] as nat) + seq!['.']
        + (crate::text::decimal(o[2] as nat) + seq!['.'] + crate::text::decimal(o[3] as nat)))
}

proof fn lemma_octet_text(x: u8)
    ensures
        octet_of(crate::text::decimal(x as nat)) == Some(x),
        !crate::text::decimal(x as nat).contains('.'),
        !crate::text::decimal(x as nat).contains(':'),
        crate::text::decimal(x as nat).len() > 0,
{
    let d = crate::text::decimal(x as nat);
    crate::text::law_decimal_round_trip(x as nat);
    reveal_with_fuel(crate::text::decimal, 4);
    assert(is_digits(d));
    if x >= 100 {
        assert(d.len() == 3);
    } else if x >= 10 {
        assert(d.len() == 2);
    } else {
        assert(d.len() == 1);
    }
    if d.contains('.') {
        let k = choose|k: int| 0 <= k < d.len() && d[k] == '.';
        assert(is_digit(d[k]));
    }
    if d.contains(':') {
        let k = choose|k: int| 0 <= k < d.len() && d[k] == ':';
        assert(is_digit(d[k]));
    }
}

/// Four octets are read back from their dotted decimal notation.
pub proof fn law_dotted_octets_are_read_back(o: Seq<u8>)
    requires
        o.len() == 4,
    ensures
        ipv4_of(dotted(o)) == Some(o),
        ip_of(dotted(o)) == Some(IpView::V4(o)),
{
    let a = crate::text::decimal(o[0] as nat);
    let b = crate::text::decimal(o[1] as nat);
    let c = crate::text::decimal(o[2] as nat);
    let d = crate::text::decimal(o[3] as nat);
    lemma_octet_text(o[0]);
    lemma_octet_text(o[1]);
    lemma_octet_text(o[2]);
    lemma_octet_text(o[3]);
    crate::text::law_pieces_stand_between(d, '.', seq![]);
    crate::text::law_pieces_stand_between(c, '.', d);
    crate::text::law_pieces_stand_between(b, '.', c + seq!['.'] + d);
    crate::text::law_pieces_stand_between(a, '.', b + seq!['.'] + (c + seq!['.'] + d));
    assert(pieces(dotted(o), '.') =~= seq![a, b, c, d]);
    assert(seq![o[0], o[1], o[2], o[3]] =~= o);
}

/// Eight groups with colons between them.
pub open spec fn colons(p: Seq<Seq<char>>) -> Seq<char>
    decreases p.len(),
{
    if p.len() <= 1 {
        p[0]
    } else {
        colons(p.drop_last()) + seq![':'] + p.last()
    }
}

/// One hexadecimal digit in writing.
pub open spec fn hex_char(d: nat) -> char {
    if d < 10 {
        (('0' as nat + d) as u8) as char
    } else {
        (('a' as nat + d - 10) as u8) as char
    }
}

/// A group of two octets in writing, with its leading zeros.
pub open spec fn hex_group(hi: u8, lo: u8) -> Seq<char> {
    seq![
        hex_char((hi / 16) as nat),
        hex_char((hi % 16) as nat),
        hex_char((lo / 16) as nat),
        hex_char((lo % 16) as nat),
    ]
}

/// The groups of sixteen octets in writing.
pub open spec fn hex_texts(o: Seq<u8>) -> Seq<Seq<char>> {
    Seq::new(o.len() / 2, |i: int| hex_group(o[2 * i], o[2 * i + 1]))
}

proof fn lemma_hex_char(d: nat)
    requires
        d < 16,
    ensures
        hex_value(hex_char(d)) == Some(d),
        hex_char(d) != ':' && hex_char(d) != '.',
{
}

proof fn lemma_hex_group(hi: u8, lo: u8)
    ensures
        group_of(hex_group(hi, lo)) == Some((256 * hi + lo) as u16),
        !hex_group(hi, lo).contains(':'),
        !hex_group(hi, lo).contains('.'),
{
    let g = hex_group(hi, lo);
    lemma_hex_char((hi / 16) as nat);
    lemma_hex_char((hi % 16) as nat);
    lemma_hex_char((lo / 16) as nat);
    lemma_hex_char((lo % 16) as nat);
    reveal_with_fuel(hex_number, 5);
    let a = g.drop_last();
    let b = a.drop_last();
    let c = b.drop_last();
    assert(c.drop_last() =~= Seq::<char>::empty());
    assert(g.last() == g[3] && a.last() == g[2] && b.last() == g[1] && c.last() == g[0]);
    assert(hex_number(g) == 256 * hi + lo);
}

proof fn lemma_colons(p: Seq<Seq<char>>)
    requires
        p.len() > 0,
        forall|i: int| 0 <= i < p.len() ==> !(#[trigger] p[i]).contains(':'),
    ensures
        pieces(colons(p), ':') == p,
    decreases p.len(),
{
    if p.len() == 1 {
        crate::text::law_pieces_stand_between(p[0], ':', seq![]);
        assert(seq![p[0]] =~= p);
    } else {
        let most = p.drop_last();
        assert forall|i: int| 0 <= i < most.len() implies !(#[trigger] most[i]).contains(':') by {
            assert(!p[i].contains(':'));
        }
        lemma_colons(most);
        assert(!p[p.len() - 1].contains(':'));
        crate::text::lemma_pieces_push(colons(most), ':', p.last());
        assert(most.push(p.last()) =~= p);
    }
}

/// The groups that the first `n` texts denote.
proof fn lemma_hex_texts(o: Seq<u8>, n: int)
    requires
        0 <= n <= o.len() / 2,
    ensures
        hex_groups(hex_texts(o).take(n)) == Some(
            Seq::new(n as nat, |i: int| (256 * o[2 * i] + o[2 * i + 1]) as u16),
        ),
    decreases n,
{
    let t = hex_texts(o).take(n);
    if n == 0 {
        assert(Seq::new(0, |i: int| (256 * o[2 * i] + o[2 * i + 1]) as u16) =~= Seq::empty());
    } else {
        lemma_hex_texts(o, n - 1);
        assert(t.drop_last() =~= hex_texts(o).take(n - 1));
        lemma_hex_group(o[2 * (n - 1)], o[2 * (n - 1) + 1]);
        assert(Seq::new((n - 1) as nat, |i: int| (256 * o[2 * i] + o[2 * i + 1]) as u16).push(
            (256 * o[2 * (n - 1)] + o[2 * (n - 1) + 1]) as u16,
        ) =~= Seq::new(n as nat, |i: int| (256 * o[2 * i] + o[2 * i + 1]) as u16));
    }
}

proof fn lemma_colons_apart(p: Seq<Seq<char>>, k: int)
    requires
        p.len() > 0,
        forall|i: int| 0 <= i < p.len() ==> (#[trigger] p[i]).len() > 0 && !p[i].contains(':'),
        0 <= k,
        k + 1 < colons(p).len(),
    ensures
        colons(p)[k] != ':' || colons(p)[k + 1] != ':',
        colons(p).len() > 0 && colons(p).last() != ':',
    decreases p.len(),
{
    let s = colons(p);
    let last = p[p.len() - 1];
    if p.len() == 1 {
        assert(s == last);
        assert(!last.contains(':'));
        assert(last[k] != ':') by {
            if last[k] == ':' {
                assert(last.contains(':'));
            }
        }
        assert(last[last.len() - 1] != ':') by {
            if last[last.len() - 1] == ':' {
                assert(last.contains(':'));
            }
        }
    } else {
        let most = p.drop_last();
        let m = colons(most);
        assert forall|i: int| 0 <= i < most.len() implies (#[trigger] most[i]).len() > 0
            && !most[i].contains(':') by {
            assert(p[i].len() > 0);
        }
        lemma_colons_end(most);
        assert(s =~= m + seq![':'] + last);
        assert(last[last.len() - 1] != ':') by {
            if last[last.len() - 1] == ':' {
                assert(last.contains(':'));
            }
        }
        if k + 1 < m.len() {
            lemma_colons_apart(most, k);
            assert(s[k] == m[k] && s[k + 1] == m[k + 1]);
        } else if k + 1 == m.len() {
            assert(s[k] == m.last());
        } else {
            let j = k + 1 - m.len() - 1;
            assert(s[k + 1] == last[j]);
            if last[j] == ':' {
                assert(last.contains(':'));
            }
        }
    }
}

proof fn lemma_colons_end(p: Seq<Seq<char>>)
    requires
        p.len() > 0,
        forall|i: int| 0 <= i < p.len() ==> (#[trigger] p[i]).len() > 0 && !p[i].contains(':'),
    ensures
        colons(p).len() > 0 && colons(p).last() != ':',
{
    let last = p[p.len() - 1];
    if last[last.len() - 1] == ':' {
        assert(last.contains(':'));
    }
    assert(colons(p).last() == last.last());
}

proof fn lemma_no_double(s: Seq<char>, from: int)
    requires
        0 <= from,
        forall|k: int| 0 <= k && k + 1 < s.len() ==> (#[trigger] s[k]) != ':' || s[k + 1] != ':',
    ensures
        crate::text::found_from(s, "::"@, from) is None,
    decreases s.len() + 1 - from,
{
    reveal_strlit("::");
    if from + 2 <= s.len() {
        let two = s.subrange(from, from + 2);
        assert(two[0] == s[from] && two[1] == s[from + 1]);
        assert(s[from] != ':' || s[from + 1] != ':');
        lemma_no_double(s, from + 1);
    }
}

/// Sixteen octets are read back from their notation in eight groups of four hexadecimal
/// digits.
pub proof fn law_hex_groups_are_read_back(o: Seq<u8>)
    requires
        o.len() == 16,
    ensures
        ipv6_of(colons(hex_texts(o))) == Some(o),
        ip_of(colons(hex_texts(o))) == Some(IpView::V6(o)),
{
    let p = hex_texts(o);
    let s = colons(p);
    assert forall|i: int| 0 <= i < p.len() implies (#[trigger] p[i]).len() > 0 && !p[i].contains(':')
        && !p[i].contains('.') by {
        lemma_hex_group(o[2 * i], o[2 * i + 1]);
    }
    lemma_colons(p);
    lemma_colons_end(p);
    assert forall|k: int| 0 <= k && k + 1 < s.len() implies (#[trigger] s[k]) != ':' || s[k + 1]
        != ':' by {
        lemma_colons_apart(p, k);
    }
    lemma_no_double(s, 0);
    lemma_hex_texts(o, 8);
    assert(p.take(8) =~= p);
    let last = p[7];
    crate::text::law_pieces_stand_between(last, '.', seq![]);
    assert(ipv4_of(p.last()) is None);
    lemma_group_octets(o);
    lemma_undotted(p);
    assert(ipv4_of(s) is None);
}

/// A text without dots is no dotted address.
proof fn lemma_undotted(p: Seq<Seq<char>>)
    requires
        p.len() > 0,
        forall|i: int| 0 <= i < p.len() ==> !(#[trigger] p[i]).contains('.'),
    ensures
        !colons(p).contains('.'),
        ipv4_of(colons(p)) is None,
    decreases p.len(),
{
    let s = colons(p);
    assert(!p[p.len() - 1].contains('.'));
    if p.len() > 1 {
        let most = p.drop_last();
        assert forall|i: int| 0 <= i < most.len() implies !(#[trigger] most[i]).contains('.') by {
            assert(!p[i].contains('.'));
        }
        lemma_undotted(most);
        if s.contains('.') {
            let k = choose|k: int| 0 <= k < s.len() && s[k] == '.';
            if k < colons(most).len() {
                assert(colons(most)[k] == '.');
            } else {
                assert(p.last()[k - colons(most).len() - 1] == '.');
            }
        }
    }
    crate::text::law_pieces_stand_between(s, '.', seq![]);
}

/// A run of zero groups may be left out at "::", at the start, at the end, in the middle
/// or as the whole address; the groups before it come first and those behind it last.
pub proof fn law_zero_groups_may_be_left_out(a: Seq<u8>, b: Seq<u8>)
    requires
        a.len() % 2 == 0,
        b.len() % 2 == 0,
        a.len() + b.len() <= 14,
    ensures
        ({
            let head = if a.len() == 0 {
                seq![]
            } else {
                colons(hex_texts(a))
            };
            let tail = if b.len() == 0 {
                seq![]
            } else {
                colons(hex_texts(b))
            };
            ipv6_of(head + "::"@ + tail) == Some(
                a + Seq::new((16 - a.len() - b.len()) as nat, |i: int| 0u8) + b,
            )
        }),
{
    reveal_strlit("::");
    let head: Seq<char> = if a.len() == 0 {
        seq![]
    } else {
        colons(hex_texts(a))
    };
    let tail: Seq<char> = if b.len() == 0 {
        seq![]
    } else {
        colons(hex_texts(b))
    };
    let s = head + "::"@ + tail;
    lemma_some_groups(a);
    lemma_some_groups(b);
    assert forall|k: int| 0 <= k < head.len() implies (#[trigger] s.subrange(k, k + 2)) != "::"@ by {
        let two = s.subrange(k, k + 2);
        assert(two[0] == s[k] && two[1] == s[k + 1]);
        assert(s[k] == head[k]);
        if k + 1 < head.len() {
            assert forall|i: int| 0 <= i < hex_texts(a).len() implies (#[trigger] hex_texts(
                a,
            )[i]).len() > 0 && !hex_texts(a)[i].contains(':') by {
                lemma_hex_group(a[2 * i], a[2 * i + 1]);
            }
            lemma_colons_apart(hex_texts(a), k);
            assert(s[k + 1] == head[k + 1]);
        } else {
            assert(s[k] == head.last());
        }
    }
    crate::text::law_split_around_the_first(head, "::"@, tail);
    let h = Seq::new(a.len() / 2, |i: int| (256 * a[2 * i] + a[2 * i + 1]) as u16);
    let t = Seq::new(b.len() / 2, |i: int| (256 * b[2 * i] + b[2 * i + 1]) as u16);
    let z = Seq::new((8 - h.len() - t.len()) as nat, |i: int| 0u16);
    lemma_group_octets(a);
    lemma_group_octets(b);
    lemma_octets_join(h, z);
    lemma_octets_join(h + z, t);
    assert(group_octets(z) =~= Seq::new((16 - a.len() - b.len()) as nat, |i: int| 0u8));
}

proof fn lemma_group_octets(o: Seq<u8>)
    requires
        o.len() % 2 == 0,
    ensures
        group_octets(Seq::new(o.len() / 2, |i: int| (256 * o[2 * i] + o[2 * i + 1]) as u16)) == o,
{
    let g = Seq::new(o.len() / 2, |i: int| (256 * o[2 * i] + o[2 * i + 1]) as u16);
    let r = group_octets(g);
    assert(r.len() == o.len());
    assert forall|i: int| 0 <= i < o.len() implies #[trigger] r[i] == o[i] by {
        let k = i / 2;
        lemma_pair_parts(o[2 * k], o[2 * k + 1]);
        assert(i == 2 * k || i == 2 * k + 1);
    }
    assert(r =~= o);
}

proof fn lemma_pair_parts(hi: u8, lo: u8)
    ensures
        ((256 * hi + lo) as u16 / 256) as u8 == hi,
        ((256 * hi + lo) as u16 % 256) as u8 == lo,
{
}

proof fn lemma_octets_join(x: Seq<u16>, y: Seq<u16>)
    ensures
        group_octets(x + y) == group_octets(x) + group_octets(y),
{
    let all = group_octets(x + y);
    let parts = group_octets(x) + group_octets(y);
    assert(all.len() == parts.len());
    assert forall|i: int| 0 <= i < all.len() implies #[trigger] all[i] == parts[i] by {
        if i >= 2 * x.len() {
            let j = i - 2 * x.len();
            assert(j / 2 == i / 2 - x.len());
            assert(j % 2 == i % 2);
            assert((x + y)[i / 2] == y[j / 2]);
        } else {
            assert((x + y)[i / 2] == x[i / 2]);
        }
    }
    assert(all =~= parts);
}

proof fn lemma_some_groups(a: Seq<u8>)
    requires
        a.len() % 2 == 0,
    ensures
        ({
            let text = if a.len() == 0 {
                seq![]
            } else {
                colons(hex_texts(a))
            };
            let g = Seq::new(a.len() / 2, |i: int| (256 * a[2 * i] + a[2 * i + 1]) as u16);
            &&& groups_of(text, false) == Some(g)
            &&& groups_of(text, true) == Some(g)
            &&& text.len() > 0 ==> text.last() != ':'
        }),
{
    let g = Seq::new(a.len() / 2, |i: int| (256 * a[2 * i] + a[2 * i + 1]) as u16);
    if a.len() == 0 {
        assert(g =~= Seq::empty());
    } else {
        let p = hex_texts(a);
        assert forall|i: int| 0 <= i < p.len() implies (#[trigger] p[i]).len() > 0
            && !p[i].contains(':') && !p[i].contains('.') by {
            lemma_hex_group(a[2 * i], a[2 * i + 1]);
        }
        lemma_colons(p);
        lemma_colons_end(p);
        lemma_hex_texts(a, p.len() as int);
        assert(p.take(p.len() as int) =~= p);
        let last = p[p.len() - 1];
        assert(!last.contains('.'));
        crate::text::law_pieces_stand_between(last, '.', seq![]);
    }
}

/// A character that an address may be written with.
pub open spec fn in_address(c: char) -> bool {
    '0' <= c <= '9' || 'a' <= c <= 'f' || c == ':' || c == '.'
}

pub proof fn lemma_dotted_plain(o: Seq<u8>)
    requires
        o.len() == 4,
    ensures
        dotted(o).len() > 0,
        forall|k: int| 0 <= k < dotted(o).len() ==> in_address(#[trigger] dotted(o)[k]),
{
    lemma_octet_text(o[0]);
    lemma_octet_text(o[1]);
    lemma_octet_text(o[2]);
    lemma_octet_text(o[3]);
    let a = crate::text::decimal(o[0] as nat);
    let b = crate::text::decimal(o[1] as nat);
    let c = crate::text::decimal(o[2] as nat);
    let d = crate::text::decimal(o[3] as nat);
    let s = dotted(o);
    assert forall|k: int| 0 <= k < s.len() implies in_address(#[trigger] s[k]) by {
        let x: int = k - a.len() - 1;
        let y: int = x - b.len() - 1;
        let z: int = y - c.len() - 1;
        assert(is_digits(a) && is_digits(b) && is_digits(c) && is_digits(d));
        if k < a.len() {
            assert(is_digit(a[k]));
        } else if 0 <= x < b.len() {
            assert(is_digit(b[x]));
        } else if 0 <= y < c.len() {
            assert(is_digit(c[y]));
        } else if 0 <= z < d.len() {
            assert(is_digit(d[z]));
        }
    }
}

pub proof fn lemma_colons_plain(o: Seq<u8>, n: int)
    requires
        1 <= n <= o.len() / 2,
    ensures
        colons(hex_texts(o).take(n)).len() > 0,
        forall|k: int|
            0 <= k < colons(hex_texts(o).take(n)).len() ==> in_address(
                #[trigger] colons(hex_texts(o).take(n))[k],
            ),
    decreases n,
{
    let p = hex_texts(o).take(n);
    let s = colons(p);
    let g = hex_group(o[2 * (n - 1)], o[2 * (n - 1) + 1]);
    assert(p[n - 1] == g);
    assert forall|k: int| 0 <= k < 4 implies in_address(#[trigger] g[k]) by {
        lemma_hex_char((o[2 * (n - 1)] / 16) as nat);
    }
    if n > 1 {
        lemma_colons_plain(o, n - 1);
        let most = hex_texts(o).take(n - 1);
        assert(p.drop_last() =~= most);
        assert forall|k: int| 0 <= k < s.len() implies in_address(#[trigger] s[k]) by {
            if k < colons(most).len() {
                assert(s[k] == colons(most)[k]);
            } else if k > colons(most).len() {
                assert(s[k] == g[k - colons(most).len() - 1]);
            }
        }
    }
}

/// An octet is at most 255 and is written without leading zeros, in one to three digits.
pub proof fn law_octets_are_plain_decimal(n: nat, s: Seq<char>)
    ensures
        octet_of(crate::text::decimal(n)) == if n <= 255 {
            Some(n as u8)
        } else {
            None
        },
        s.len() > 0 ==> octet_of(seq!['0'] + s) is None,
        octet_of(seq![]) is None,
        !is_digits(s) ==> octet_of(s) is None,
        octet_of(s) matches Some(x) ==> s == crate::text::decimal(x as nat),
{
    crate::text::law_decimal_round_trip(n);
    if n <= 255 {
        lemma_octet_text(n as u8);
    }
    if octet_of(s) is Some {
        lemma_octet_is_written_once(s);
    }
}

proof fn lemma_octet_is_written_once(s: Seq<char>)
    requires
        octet_of(s) is Some,
    ensures
        s == crate::text::decimal(digits_value(s)),
{
    reveal_with_fuel(digits_value, 4);
    reveal_with_fuel(crate::text::decimal, 4);
    let a = s.drop_last();
    let b = a.drop_last();
    assert(is_digit(s[0]));
    assert(is_digit(s[s.len() - 1]));
    if s.len() == 1 {
        assert(a =~= Seq::empty());
        assert(s =~= crate::text::decimal(digits_value(s)));
    } else if s.len() == 2 {
        assert(b =~= Seq::empty());
        assert(a.last() == s[0] && s.last() == s[1]);
        assert(s =~= crate::text::decimal(digits_value(s)));
    } else {
        assert(is_digit(s[1]));
        assert(b.drop_last() =~= Seq::empty());
        assert(b.last() == s[0] && a.last() == s[1] && s.last() == s[2]);
        assert(s =~= crate::text::decimal(digits_value(s)));
    }
}

/// A dotted address has four octets, no fewer and no more, each of them readable.
pub proof fn law_other_dotted_texts_are_refused(s: Seq<char>)
    ensures
        ipv4_of(s) is Some <==> pieces(s, '.').len() == 4 && forall|i: int|
            0 <= i < 4 ==> octet_of(#[trigger] pieces(s, '.')[i]) is Some,
        ipv4_of(s) matches Some(o) ==> o.len() == 4 && forall|i: int|
            0 <= i < 4 ==> octet_of(pieces(s, '.')[i]) == Some(#[trigger] o[i]),
{
    let p = pieces(s, '.');
    if p.len() == 4 && (forall|i: int| 0 <= i < 4 ==> octet_of(#[trigger] p[i]) is Some) {
        assert(octet_of(p[0]) is Some && octet_of(p[1]) is Some && octet_of(p[2]) is Some
            && octet_of(p[3]) is Some);
    }
}

/// Hexadecimal digits are read in either case, and each counts sixteen times the one behind
/// it; a group has one to four of them and nothing else.
pub proof fn law_hex_digits_are_positional(s: Seq<char>, c: char)
    ensures
        '0' <= c <= '9' ==> hex_value(c) == Some((c as int - 48) as nat),
        'a' <= c <= 'f' ==> hex_value(c) == Some((c as int - 97 + 10) as nat),
        'A' <= c <= 'F' ==> hex_value(c) == Some((c as int - 65 + 10) as nat),
        !('0' <= c <= '9' || 'a' <= c <= 'f' || 'A' <= c <= 'F') ==> hex_value(c) is None,
        hex_value(c) matches Some(d) ==> group_of(seq![c]) == Some(d as u16),
        hex_value(c) is None ==> group_of(s.push(c)) is None,
        s.len() == 0 || s.len() > 4 ==> group_of(s) is None,
        s.len() < 4 && group_of(s) is Some && hex_value(c) is Some ==> group_of(s.push(c)) == Some(
            (16 * group_of(s)->0 + hex_value(c)->0) as u16,
        ),
{
    let t = s.push(c);
    assert(t.drop_last() =~= s);
    reveal_with_fuel(hex_number, 2);
    assert(seq![c].drop_last() =~= Seq::empty());
    if hex_value(c) is None {
        assert(t[s.len() as int] == c);
    }
    if s.len() < 4 && group_of(s) is Some && hex_value(c) is Some {
        lemma_hex_number_bound(s);
        assert forall|i: int| 0 <= i < t.len() implies hex_value(#[trigger] t[i]) is Some by {
            if i < s.len() {
                assert(t[i] == s[i]);
            }
        }
    }
}

proof fn lemma_hex_number_bound(s: Seq<char>)
    requires
        s.len() < 4,
        forall|i: int| 0 <= i < s.len() ==> hex_value(#[trigger] s[i]) is Some,
    ensures
        hex_number(s) < 4096,
{
    reveal_with_fuel(hex_number, 4);
    if s.len() > 0 {
        let a = s.drop_last();
        assert(hex_value(s[s.len() - 1]) is Some);
        if s.len() > 1 {
            let b = a.drop_last();
            assert(hex_value(s[s.len() - 2]) is Some);
            assert(a.last() == s[s.len() - 2]);
            if s.len() > 2 {
                assert(hex_value(s[0]) is Some);
                assert(b.last() == s[0]);
                assert(b.drop_last() =~= Seq::empty());
            } else {
                assert(b =~= Seq::empty());
            }
        } else {
            assert(a =~= Seq::empty());
        }
    }
}

proof fn lemma_dotted_tail(o: Seq<u8>)
    requires
        o.len() == 4,
    ensures
        !dotted(o).contains(':'),
        dotted(o).len() > 0,
        group_of(dotted(o)) is None,
{
    lemma_dotted_plain(o);
    lemma_octet_text(o[0]);
    lemma_octet_text(o[1]);
    lemma_octet_text(o[2]);
    lemma_octet_text(o[3]);
    let a = crate::text::decimal(o[0] as nat);
    let b = crate::text::decimal(o[1] as nat);
    let c = crate::text::decimal(o[2] as nat);
    let d = crate::text::decimal(o[3] as nat);
    let s = dotted(o);
    assert(s[a.len() as int] == '.');
    assert(hex_value('.') is None);
    if s.contains(':') {
        let k = choose|k: int| 0 <= k < s.len() && s[k] == ':';
        let x: int = k - a.len() - 1;
        let y: int = x - b.len() - 1;
        let z: int = y - c.len() - 1;
        if k < a.len() {
            assert(a[k] == ':');
        } else if 0 <= x < b.len() {
            assert(b[x] == ':');
        } else if 0 <= y < c.len() {
            assert(c[y] == ':');
        } else if 0 <= z < d.len() {
            assert(d[z] == ':');
        }
    }
}

/// The last four octets of an IPv6 address may be written as an IPv4 address behind the
/// other groups.
pub proof fn law_last_octets_may_be_dotted(a: Seq<u8>, o: Seq<u8>)
    requires
        a.len() == 12,
        o.len() == 4,
    ensures
        ipv6_of(colons(hex_texts(a)) + seq![':'] + dotted(o)) == Some(a + o),
{
    let d = dotted(o);
    lemma_dotted_tail(o);
    law_dotted_octets_are_read_back(o);
    let p = hex_texts(a);
    let pd = p.push(d);
    assert forall|i: int| 0 <= i < p.len() implies (#[trigger] p[i]).len() > 0 && !p[i].contains(
        ':',
    ) by {
        lemma_hex_group(a[2 * i], a[2 * i + 1]);
    }
    assert forall|i: int| 0 <= i < pd.len() implies (#[trigger] pd[i]).len() > 0 && !pd[i].contains(
        ':',
    ) by {
        if i < p.len() {
            assert(pd[i] == p[i]);
        }
    }
    let s = colons(p) + seq![':'] + d;
    assert(pd.drop_last() =~= p);
    assert(colons(pd) == s);
    lemma_colons(pd);
    assert forall|k: int| 0 <= k && k + 1 < s.len() implies (#[trigger] s[k]) != ':' || s[k + 1]
        != ':' by {
        lemma_colons_apart(pd, k);
    }
    lemma_no_double(s, 0);
    lemma_hex_texts(a, 6);
    assert(p.take(6) =~= p);
    let g = Seq::new(6, |i: int| (256 * a[2 * i] + a[2 * i + 1]) as u16);
    let two = seq![pair(o[0], o[1]), pair(o[2], o[3])];
    lemma_dotted_groups(o);
    lemma_group_octets(a);
    lemma_octets_join(g, two);
}

/// An IPv4 address may stand behind "::", but not before it.
pub proof fn law_dotted_octets_come_last(o: Seq<u8>)
    requires
        o.len() == 4,
    ensures
        ipv6_of("::"@ + dotted(o)) == Some(Seq::new(12, |i: int| 0u8) + o),
        ipv6_of(dotted(o) + "::"@) is None,
{
    reveal_strlit("::");
    let d = dotted(o);
    lemma_dotted_tail(o);
    law_dotted_octets_are_read_back(o);
    lemma_dotted_groups(o);
    let two = seq![pair(o[0], o[1]), pair(o[2], o[3])];
    let none = Seq::<char>::empty();
    let t = "::"@ + d;
    assert(t =~= none + "::"@ + d);
    crate::text::law_split_around_the_first(none, "::"@, d);
    crate::text::law_pieces_stand_between(d, ':', seq![]);
    assert(seq![d].drop_last() =~= Seq::empty());
    let z = Seq::new(6, |i: int| 0u16);
    assert(Seq::<u16>::empty() + two =~= two);
    assert(Seq::<u16>::empty() + z + two =~= z + two);
    lemma_octets_join(z, two);
    assert(group_octets(z) =~= Seq::new(12, |i: int| 0u8));
    assert forall|k: int| 0 <= k < d.len() implies (#[trigger] (d + "::"@ + none).subrange(k, k + 2))
        != "::"@ by {
        assert((d + "::"@ + none).subrange(k, k + 2)[0] == d[k]);
    }
    crate::text::law_split_around_the_first(d, "::"@, none);
    assert(d + "::"@ + none =~= d + "::"@);
    reveal_with_fuel(hex_groups, 2);
    assert(hex_groups(seq![d]) is None);
}

proof fn lemma_dotted_groups(o: Seq<u8>)
    requires
        o.len() == 4,
    ensures
        group_octets(seq![pair(o[0], o[1]), pair(o[2], o[3])]) == o,
{
    let g = Seq::new(2, |i: int| (256 * o[2 * i] + o[2 * i + 1]) as u16);
    let two = seq![pair(o[0], o[1]), pair(o[2], o[3])];
    assert(g.len() == 2 && two.len() == 2);
    assert(g[0] == two[0]) by {
        assert(2 * 0int == 0);
    }
    assert(g[1] == two[1]);
    assert(two =~= g);
    lemma_group_octets(o);
}

/// Without "::" there are eight groups, no fewer and no more, and "::" stands for one group
/// at least.
pub proof fn law_group_count_is_kept_to(o: Seq<u8>, a: Seq<u8>, b: Seq<u8>)
    requires
        o.len() % 2 == 0,
        0 < o.len() && o.len() != 16,
        a.len() % 2 == 0 && a.len() > 0,
        b.len() % 2 == 0 && b.len() > 0,
        a.len() + b.len() > 14,
    ensures
        ipv6_of(colons(hex_texts(o))) is None,
        ipv6_of(colons(hex_texts(a)) + "::"@ + colons(hex_texts(b))) is None,
{
    lemma_some_groups(o);
    lemma_some_groups(a);
    lemma_some_groups(b);
    reveal_strlit("::");
    let p = hex_texts(o);
    let s = colons(p);
    assert forall|i: int| 0 <= i < p.len() implies (#[trigger] p[i]).len() > 0 && !p[i].contains(
        ':',
    ) by {
        lemma_hex_group(o[2 * i], o[2 * i + 1]);
    }
    assert forall|k: int| 0 <= k && k + 1 < s.len() implies (#[trigger] s[k]) != ':' || s[k + 1]
        != ':' by {
        lemma_colons_apart(p, k);
    }
    lemma_no_double(s, 0);
    let head = colons(hex_texts(a));
    let tail = colons(hex_texts(b));
    let w = head + "::"@ + tail;
    assert forall|k: int| 0 <= k < head.len() implies (#[trigger] w.subrange(k, k + 2)) != "::"@ by {
        let two = w.subrange(k, k + 2);
        assert(two[0] == w[k] && two[1] == w[k + 1]);
        assert(w[k] == head[k]);
        if k + 1 < head.len() {
            assert forall|i: int| 0 <= i < hex_texts(a).len() implies (#[trigger] hex_texts(
                a,
            )[i]).len() > 0 && !hex_texts(a)[i].contains(':') by {
                lemma_hex_group(a[2 * i], a[2 * i + 1]);
            }
            lemma_colons_apart(hex_texts(a), k);
            assert(w[k + 1] == head[k + 1]);
        } else {
            assert(w[k] == head.last());
        }
    }
    crate::text::law_split_around_the_first(head, "::"@, tail);
}

} // verus!
