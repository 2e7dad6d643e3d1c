//! Internet addresses: IPv4, IPv6 and socket addresses, their text forms and their parsers.

use vstd::prelude::*;
use vstd::slice::slice_subrange;
use crate::text;

verus! {

// ---------------------------------------------------------------------------
// IPv4
// ---------------------------------------------------------------------------

/// An IPv4 address as the number its four octets write, the first octet the highest.
#[derive(Debug, Clone, Copy, PartialEq, Eq, Structural)]
pub struct Ipv4Addr {
    pub bits: u32,
}

/// The number that four octets write.
pub open spec fn join_octets(a: int, b: int, c: int, d: int) -> int {
    ((a * 256 + b) * 256 + c) * 256 + d
}

impl Ipv4Addr {
    /// The four octets, first to last.
    pub open spec fn bytes(self) -> Seq<u8> {
        seq![
            (self.bits / 0x100_0000) as u8,
            (self.bits / 0x1_0000 % 256) as u8,
            (self.bits / 0x100 % 256) as u8,
            (self.bits % 256) as u8,
        ]
    }

    /// The dotted decimal form.
    pub open spec fn text(self) -> Seq<char> {
        let b = self.bytes();
        text::decimal(b[0] as int).push('.') + text::decimal(b[1] as int).push('.')
            + text::decimal(b[2] as int).push('.') + text::decimal(b[3] as int)
    }

    /// The address with the four given octets.
    pub fn new(a: u8, b: u8, c: u8, d: u8) -> (r: Self)
        ensures
            r.bits == join_octets(a as int, b as int, c as int, d as int),
            r.bytes() == seq![a, b, c, d],
    {
        let high: u32 = (a as u32) * 256 + (b as u32);
        let middle: u32 = high * 256 + (c as u32);
        let bits: u32 = middle * 256 + (d as u32);
        assert(bits / 256 == middle && bits % 256 == d);
        assert(middle / 256 == high && middle % 256 == c);
        assert(high / 256 == a && high % 256 == b);
        assert(bits / 0x1_0000 == high);
        assert(bits / 0x100_0000 == a);
        let r = Ipv4Addr { bits };
        assert(r.bytes() =~= seq![a, b, c, d]);
        r
    }

    /// The four octets, first to last.
    pub fn octets(self) -> (r: [u8; 4])
        ensures
            r@ == self.bytes(),
    {
        let r = [
            (self.bits / 0x100_0000) as u8,
            (self.bits / 0x1_0000 % 256) as u8,
            (self.bits / 0x100 % 256) as u8,
            (self.bits % 256) as u8,
        ];
        assert(r@ =~= self.bytes());
        r
    }

    /// The dotted decimal form.
    pub fn to_string(&self) -> (r: String)
        ensures
            r@ == self.text(),
    {
        let o = self.octets();
        let mut out = text::decimal_u64(o[0] as u64);
        out.push('.');
        let second = text::decimal_u64(o[1] as u64);
        out.append(second.as_str());
        out.push('.');
        let third = text::decimal_u64(o[2] as u64);
        out.append(third.as_str());
        out.push('.');
        let fourth = text::decimal_u64(o[3] as u64);
        out.append(fourth.as_str());
        assert(out@ =~= self.text());
        out
    }
}

/// The octets of an address write the address.
pub proof fn lemma_join_bytes(ip: Ipv4Addr)
    ensures
        ({
            let b = ip.bytes();
            join_octets(b[0] as int, b[1] as int, b[2] as int, b[3] as int) == ip.bits
        }),
{
}

/// One octet of the dotted decimal form: one to three digits, no zero in front.
pub open spec fn octet_text(s: Seq<char>) -> Option<int> {
    if 1 <= s.len() <= 3 && (s.len() == 1 || s[0] != '0') {
        text::number_upto(s, 10, 255)
    } else {
        None
    }
}

/// The address that a text writes in dotted decimal form.
pub open spec fn ipv4_text(s: Seq<char>) -> Option<Ipv4Addr> {
    let f = text::fields(s, '.');
    if f.len() == 4 {
        match (octet_text(f[0]), octet_text(f[1]), octet_text(f[2]), octet_text(f[3])) {
            (Some(a), Some(b), Some(c), Some(d)) => Some(
                Ipv4Addr { bits: join_octets(a, b, c, d) as u32 },
            ),
            _ => None,
        }
    } else {
        None
    }
}

fn parse_octet(s: &[char]) -> (r: Option<u8>)
    ensures
        match r {
            Some(v) => octet_text(s@) == Some(v as int),
            None => octet_text(s@) is None,
        },
{
    if s.len() == 0 || s.len() > 3 || (s.len() > 1 && s[0] == '0') {
        return None;
    }
    match text::parse_number(s, 10, 255) {
        Some(v) => Some(v as u8),
        None => None,
    }
}

/// The address that a text writes in dotted decimal form.
pub fn parse_ipv4(s: &[char]) -> (r: Option<Ipv4Addr>)
    ensures
        r == ipv4_text(s@),
{
    let f = text::split(s, '.');
    let ghost spec_fields = text::fields(s@, '.');
    if f.len() != 4 {
        return None;
    }
    assert(spec_fields[0] == f@[0]@ && spec_fields[1] == f@[1]@);
    assert(spec_fields[2] == f@[2]@ && spec_fields[3] == f@[3]@);
    let a = parse_octet(f[0].as_slice());
    let b = parse_octet(f[1].as_slice());
    let c = parse_octet(f[2].as_slice());
    let d = parse_octet(f[3].as_slice());
    match (a, b, c, d) {
        (Some(a), Some(b), Some(c), Some(d)) => Some(Ipv4Addr::new(a, b, c, d)),
        _ => None,
    }
}

// ---------------------------------------------------------------------------
// IPv6
// ---------------------------------------------------------------------------

/// An IPv6 address as its eight 16-bit groups.
#[derive(Debug, Clone, Copy, PartialEq, Eq)]
pub struct Ipv6Addr {
    pub segments: [u16; 8],
}

/// A group of the IPv6 text form: one to four hexadecimal digits.
pub open spec fn group_text(s: Seq<char>) -> Option<u16> {
    if 1 <= s.len() <= 4 {
        match text::number_upto(s, 16, 0xffff) {
            Some(v) => Some(v as u16),
            None => None,
        }
    } else {
        None
    }
}

/// The two groups that an embedded IPv4 address fills.
pub open spec fn ipv4_groups(ip: Ipv4Addr) -> Seq<u16> {
    seq![(ip.bits / 0x1_0000) as u16, (ip.bits % 0x1_0000) as u16]
}

/// The first `n` fields, each a hexadecimal group.
pub open spec fn hex_groups(f: Seq<Seq<char>>, n: int) -> Option<Seq<u16>>
    decreases n,
{
    if n <= 0 {
        Some(Seq::empty())
    } else {
        match (hex_groups(f, n - 1), group_text(f[n - 1])) {
            (Some(g), Some(v)) => Some(g.push(v)),
            _ => None,
        }
    }
}

/// A run of groups between colons; the last may be an IPv4 address where `tail` says so.
pub open spec fn groups_text(s: Seq<char>, tail: bool) -> Option<Seq<u16>> {
    let f = text::fields(s, ':');
    if s.len() == 0 {
        Some(Seq::empty())
    } else {
        match hex_groups(f, f.len() - 1) {
            None => None,
            Some(g) => match group_text(f.last()) {
                Some(v) => Some(g.push(v)),
                None => match ipv4_text(f.last()) {
                    Some(ip) => if tail {
                        Some(g + ipv4_groups(ip))
                    } else {
                        None
                    },
                    None => None,
                },
            },
        }
    }
}

/// The groups that an IPv6 text writes: eight of them, or fewer around one `::` that stands
/// for at least one group of zeros.
pub open spec fn ipv6_text(s: Seq<char>) -> Option<Seq<u16>> {
    match text::first_text(s, seq![':', ':']) {
        None => match groups_text(s, true) {
            Some(g) => if g.len() == 8 {
                Some(g)
            } else {
                None
            },
            None => None,
        },
        Some(i) => match (groups_text(s.take(i), false), groups_text(s.skip(i + 2), true)) {
            (Some(h), Some(t)) => if h.len() + t.len() <= 7 {
                Some(around_gap(h, t))
            } else {
                None
            },
            _ => None,
        },
    }
}

fn parse_group(s: &[char]) -> (r: Option<u16>)
    ensures
        r == group_text(s@),
{
    if s.len() == 0 || s.len() > 4 {
        return None;
    }
    match text::parse_number(s, 16, 0xffff) {
        Some(v) => Some(v as u16),
        None => None,
    }
}

proof fn lemma_hex_groups_prefix(f: Seq<Seq<char>>, n: int, m: int)
    requires
        n <= m,
        hex_groups(f, n) is None,
    ensures
        hex_groups(f, m) is None,
    decreases m - n,
{
    if n < m {
        lemma_hex_groups_prefix(f, n, m - 1);
    }
}

fn parse_groups(s: &[char], tail: bool) -> (r: Option<Vec<u16>>)
    ensures
        match r {
            Some(g) => groups_text(s@, tail) == Some(g@),
            None => groups_text(s@, tail) is None,
        },
{
    let mut out: Vec<u16> = Vec::new();
    if s.len() == 0 {
        assert(out@ =~= Seq::empty());
        return Some(out);
    }
    let f = text::split(s, ':');
    let ghost sf = text::fields(s@, ':');
    let last: usize = f.len() - 1;
    for i in 0..last
        invariant
            last == f@.len() - 1,
            text::views(f@) == sf,
            s@.len() > 0,
            sf == text::fields(s@, ':'),
            hex_groups(sf, i as int) == Some(out@),
    {
        assert(sf[i as int] == f@[i as int]@);
        match parse_group(f[i].as_slice()) {
            Some(v) => {
                out.push(v);
            },
            None => {
                proof {
                    lemma_hex_groups_prefix(sf, i + 1, last as int);
                }
                return None;
            },
        }
    }
    assert(sf.last() == f@[last as int]@);
    match parse_group(f[last].as_slice()) {
        Some(v) => {
            out.push(v);
            Some(out)
        },
        None => match parse_ipv4(f[last].as_slice()) {
            Some(ip) => if tail {
                let ghost before = out@;
                out.push((ip.bits / 0x1_0000) as u16);
                out.push((ip.bits % 0x1_0000) as u16);
                assert(out@ =~= before + ipv4_groups(ip));
                Some(out)
            } else {
                None
            },
            None => None,
        },
    }
}

/// `h` and `t` with zeros between them, eight groups in all.
pub open spec fn around_gap(h: Seq<u16>, t: Seq<u16>) -> Seq<u16> {
    h + Seq::new((8 - h.len() - t.len()) as nat, |k: int| 0u16) + t
}

fn fill_gap(h: &[u16], t: &[u16]) -> (r: [u16; 8])
    requires
        h@.len() + t@.len() <= 7,
    ensures
        r@ == around_gap(h@, t@),
{
    let mut r: [u16; 8] = [0, 0, 0, 0, 0, 0, 0, 0];
    for k in 0..h.len()
        invariant
            h@.len() + t@.len() <= 7,
            r@.len() == 8,
            forall|j: int| 0 <= j < k ==> r@[j] == h@[j],
            forall|j: int| k <= j < 8 ==> r@[j] == 0,
    {
        r[k] = h[k];
    }
    let start: usize = 8 - t.len();
    for k in 0..t.len()
        invariant
            h@.len() + t@.len() <= 7,
            r@.len() == 8,
            start == 8 - t@.len(),
            forall|j: int| 0 <= j < h@.len() ==> r@[j] == h@[j],
            forall|j: int| h@.len() <= j < start ==> r@[j] == 0,
            forall|j: int| start <= j < start + k ==> r@[j] == t@[j - start],
    {
        r[start + k] = t[k];
    }
    assert(r@ =~= around_gap(h@, t@));
    r
}

/// The address that a text writes in colon form.
pub fn parse_ipv6(s: &[char]) -> (r: Option<Ipv6Addr>)
    ensures
        match r {
            Some(ip) => ipv6_text(s@) == Some(ip.segments@),
            None => ipv6_text(s@) is None,
        },
{
    let n: usize = s.len();
    let gap = [':', ':'];
    assert(gap@ =~= seq![':', ':']);
    match text::find_text(s, gap.as_slice()) {
        None => match parse_groups(s, true) {
            Some(g) => if g.len() == 8 {
                let segments = [g[0], g[1], g[2], g[3], g[4], g[5], g[6], g[7]];
                assert(segments@ =~= g@);
                Some(Ipv6Addr { segments })
            } else {
                None
            },
            None => None,
        },
        Some(i) => {
            assert(text::occurs_at(s@, gap@, i as int));
            let head = parse_groups(text::take(s, i), false);
            let tail = parse_groups(text::skip(s, i + 2), true);
            match (head, tail) {
                (Some(h), Some(t)) => {
                    if h.len() > 7 || t.len() > 7 - h.len() {
                        return None;
                    }
                    let segments = fill_gap(h.as_slice(), t.as_slice());
                    Some(Ipv6Addr { segments })
                },
                _ => None,
            }
        },
    }
}

/// How many zero groups follow one another from `i` on.
pub open spec fn zero_run(g: Seq<u16>, i: int) -> int
    decreases g.len() - i,
{
    if 0 <= i < g.len() && g[i] == 0 {
        1 + zero_run(g, i + 1)
    } else {
        0
    }
}

/// From `i` on stands the longest run of zero groups, the first of those as long.
pub open spec fn is_longest_run(g: Seq<u16>, i: int) -> bool {
    &&& 0 <= i <= g.len()
    &&& forall|j: int| 0 <= j <= g.len() ==> #[trigger] zero_run(g, j) <= zero_run(g, i)
    &&& forall|j: int| 0 <= j < i ==> #[trigger] zero_run(g, j) < zero_run(g, i)
}

/// Where the first of the longest runs of zero groups begins.
pub open spec fn longest_run(g: Seq<u16>) -> int {
    choose|i: int| is_longest_run(g, i)
}

/// Groups in hexadecimal with colons between them.
pub open spec fn hex_list(g: Seq<u16>) -> Seq<char>
    decreases g.len(),
{
    if g.len() == 0 {
        Seq::empty()
    } else if g.len() == 1 {
        text::digits(g[0] as nat, 16)
    } else {
        hex_list(g.drop_last()).push(':') + text::digits(g.last() as nat, 16)
    }
}

/// The groups are those of an IPv4 address mapped into IPv6.
pub open spec fn is_ipv4_mapped(g: Seq<u16>) -> bool {
    g[0] == 0 && g[1] == 0 && g[2] == 0 && g[3] == 0 && g[4] == 0 && g[5] == 0xffff
}

/// The text form of an IPv6 address: the longest run of two or more zero groups is written
/// `::`, and a mapped IPv4 address is written in dotted decimal.
#[verifier::opaque]
pub open spec fn ipv6_display(g: Seq<u16>) -> Seq<char> {
    let i = longest_run(g);
    let n = zero_run(g, i);
    if is_ipv4_mapped(g) {
        "::ffff:"@ + (Ipv4Addr { bits: (g[6] * 0x1_0000 + g[7]) as u32 }).text()
    } else if n > 1 {
        hex_list(g.take(i)) + "::"@ + hex_list(g.skip(i + n))
    } else {
        hex_list(g)
    }
}

proof fn lemma_zero_run_bounds(g: Seq<u16>, i: int)
    requires
        0 <= i <= g.len(),
    ensures
        0 <= zero_run(g, i) <= g.len() - i,
    decreases g.len() - i,
{
    if i < g.len() {
        lemma_zero_run_bounds(g, i + 1);
    }
}

fn count_zeros(g: &[u16; 8], i: usize) -> (r: usize)
    requires
        i <= 8,
    ensures
        r == zero_run(g@, i as int),
        r <= 8 - i,
    decreases 8 - i,
{
    if i < 8 && g[i] == 0 {
        1 + count_zeros(g, i + 1)
    } else {
        0
    }
}

fn render_groups(g: &[u16]) -> (r: String)
    ensures
        r@ == hex_list(g@),
{
    let mut out = String::new();
    assert(out@ =~= hex_list(g@.take(0)));
    for i in 0..g.len()
        invariant
            out@ == hex_list(g@.take(i as int)),
    {
        assert(g@.take(i + 1).drop_last() == g@.take(i as int));
        if i > 0 {
            out.push(':');
        }
        let d = text::hex_u64(g[i] as u64);
        let ghost before = out@;
        out.append(d.as_str());
        assert(i == 0 ==> out@ =~= d@);
    }
    assert(g@.take(g@.len() as int) == g@);
    out
}

impl Ipv6Addr {
    /// The address with the eight given groups.
    pub fn new(segments: [u16; 8]) -> (r: Self)
        ensures
            r.segments == segments,
    {
        Ipv6Addr { segments }
    }

    /// The sixteen bytes, each group with its high byte first.
    pub open spec fn bytes(self) -> Seq<u8> {
        Seq::new(
            16,
            |i: int|
                if i % 2 == 0 {
                    (self.segments@[i / 2] / 256) as u8
                } else {
                    (self.segments@[i / 2] % 256) as u8
                },
        )
    }

    /// The sixteen bytes, each group with its high byte first.
    pub fn octets(self) -> (r: [u8; 16])
        ensures
            r@ == self.bytes(),
    {
        let mut r: [u8; 16] = [0, 0, 0, 0, 0, 0, 0, 0, 0, 0, 0, 0, 0, 0, 0, 0];
        for k in 0..8
            invariant
                r@.len() == 16,
                forall|j: int| 0 <= j < 2 * k ==> r@[j] == self.bytes()[j],
        {
            let i: usize = k;
            r[2 * i] = (self.segments[i] / 256) as u8;
            r[2 * i + 1] = (self.segments[i] % 256) as u8;
        }
        assert(r@ =~= self.bytes());
        r
    }

    /// The address whose sixteen bytes are given, high bytes first.
    pub fn from_octets(b: &[u8]) -> (r: Self)
        requires
            b@.len() == 16,
        ensures
            r.bytes() == b@,
    {
        let mut segments: [u16; 8] = [0, 0, 0, 0, 0, 0, 0, 0];
        for k in 0..8
            invariant
                b@.len() == 16,
                segments@.len() == 8,
                forall|j: int|
                    0 <= j < k ==> #[trigger] segments@[j] == b@[2 * j] * 256 + b@[2 * j + 1],
        {
            let i: usize = k;
            segments[i] = (b[2 * i] as u16) * 256 + (b[2 * i + 1] as u16);
        }
        let r = Ipv6Addr { segments };
        assert forall|i: int| 0 <= i < 16 implies r.bytes()[i] == b@[i] by {
            assert(segments@[i / 2] == b@[2 * (i / 2)] * 256 + b@[2 * (i / 2) + 1]);
        }
        assert(r.bytes() =~= b@);
        r
    }

    /// The text form.
    pub fn to_string(&self) -> (r: String)
        ensures
            r@ == ipv6_display(self.segments@),
    {
        proof {
            reveal(ipv6_display);
        }
        let g = self.segments;
        if g[0] == 0 && g[1] == 0 && g[2] == 0 && g[3] == 0 && g[4] == 0 && g[5] == 0xffff {
            let ip = Ipv4Addr { bits: (g[6] as u32) * 0x1_0000 + (g[7] as u32) };
            let dotted = ip.to_string();
            return "::ffff:".to_owned().concat(dotted.as_str());
        }
        let mut start: usize = 0;
        let mut len: usize = count_zeros(&g, 0);
        for i in 1..9
            invariant
                g@.len() == 8,
                start < i <= 9,
                start <= 8,
                len == zero_run(g@, start as int),
                len <= 8 - start,
                forall|j: int| 0 <= j < i ==> #[trigger] zero_run(g@, j) <= len,
                forall|j: int| 0 <= j < start ==> #[trigger] zero_run(g@, j) < len,
        {
            let k: usize = i;
            let n = count_zeros(&g, k);
            if n > len {
                start = k;
                len = n;
            }
        }
        assert(is_longest_run(g@, start as int));
        let ghost chosen = longest_run(g@);
        assert(is_longest_run(g@, chosen));
        assert(chosen == start);
        if len > 1 {
            let head = render_groups(slice_subrange(g.as_slice(), 0, start));
            let tail = render_groups(slice_subrange(g.as_slice(), start + len, 8));
            assert(g@.subrange(0, start as int) == g@.take(start as int));
            assert(g@.subrange(start + len, 8) == g@.skip(start + len));
            head.concat("::").concat(tail.as_str())
        } else {
            render_groups(g.as_slice())
        }
    }
}

// ---------------------------------------------------------------------------
// Addresses with a port
// ---------------------------------------------------------------------------

/// An IPv4 address with a port.
#[derive(Debug, Clone, Copy, PartialEq, Eq, Structural)]
pub struct SocketAddrV4 {
    pub ip: Ipv4Addr,
    pub port: u16,
}

impl SocketAddrV4 {
    /// The text form: the address, a colon and the port.
    pub open spec fn text(self) -> Seq<char> {
        self.ip.text() + ":"@ + text::decimal(self.port as int)
    }

    /// The given address with the given port.
    pub fn new(ip: Ipv4Addr, port: u16) -> (r: Self)
        ensures
            r.ip == ip,
            r.port == port,
    {
        SocketAddrV4 { ip, port }
    }

    /// The text form.
    pub fn to_string(&self) -> (r: String)
        ensures
            r@ == self.text(),
    {
        let p = text::decimal_u64(self.port as u64);
        self.ip.to_string().concat(":").concat(p.as_str())
    }
}

/// An address of either kind.
#[derive(Debug, Clone, Copy, PartialEq, Eq)]
pub enum IpAddr {
    V4(Ipv4Addr),
    V6(Ipv6Addr),
}

/// An address with a port; an IPv6 address may carry a flow label and a scope, zero for none.
#[derive(Debug, Clone, Copy, PartialEq, Eq)]
pub enum SocketAddr {
    V4 { ip: Ipv4Addr, port: u16 },
    V6 { ip6: Ipv6Addr, port: u16, flow: u32, scope: u32 },
}

/// What a socket address says, as plain values.
pub ghost enum SocketAddrView {
    V4 { ip: Ipv4Addr, port: u16 },
    V6 { groups: Seq<u16>, port: u16, flow: u32, scope: u32 },
}

impl View for SocketAddr {
    type V = SocketAddrView;

    open spec fn view(&self) -> SocketAddrView {
        match *self {
            SocketAddr::V4 { ip, port } => SocketAddrView::V4 { ip, port },
            SocketAddr::V6 { ip6, port, flow, scope } => SocketAddrView::V6 {
                groups: ip6.segments@,
                port,
                flow,
                scope,
            },
        }
    }
}

impl SocketAddrView {
    /// The text form: the address, in brackets where it is IPv6, a colon and the port. A flow
    /// label is not shown.
    pub open spec fn text(self) -> Seq<char> {
        match self {
            SocketAddrView::V4 { ip, port } => ip.text() + ":"@ + text::decimal(port as int),
            SocketAddrView::V6 { groups, port, flow: _, scope } => if scope == 0 {
                "["@ + ipv6_display(groups) + "]:"@ + text::decimal(port as int)
            } else {
                "["@ + ipv6_display(groups) + "%"@ + text::decimal(scope as int) + "]:"@
                    + text::decimal(port as int)
            },
        }
    }
}

/// A port, or another number of at least one decimal digit.
pub open spec fn plain_number(s: Seq<char>, max: int) -> Option<int> {
    if s.len() == 0 {
        None
    } else {
        text::number_upto(s, 10, max)
    }
}

/// An IPv4 address, a colon and a port.
pub open spec fn socket_v4_text(s: Seq<char>) -> Option<SocketAddrView> {
    match text::first_of(s, ':') {
        Some(i) => match (ipv4_text(s.take(i)), plain_number(s.skip(i + 1), 65535)) {
            (Some(ip), Some(port)) => Some(SocketAddrView::V4 { ip, port: port as u16 }),
            _ => None,
        },
        None => None,
    }
}

/// An IPv6 address with an optional scope behind `%`.
pub open spec fn scoped_text(s: Seq<char>) -> Option<(Seq<u16>, u32)> {
    match text::first_of(s, '%') {
        Some(k) => match (ipv6_text(s.take(k)), plain_number(s.skip(k + 1), 0xffff_ffff)) {
            (Some(groups), Some(scope)) => Some((groups, scope as u32)),
            _ => None,
        },
        None => match ipv6_text(s) {
            Some(groups) => Some((groups, 0u32)),
            None => None,
        },
    }
}

/// An IPv6 address in brackets, a colon and a port.
pub open spec fn socket_v6_text(s: Seq<char>) -> Option<SocketAddrView> {
    match text::first_of(s, ']') {
        Some(i) => if s[0] == '[' && i + 1 < s.len() && s[i + 1] == ':' {
            match (scoped_text(s.subrange(1, i)), plain_number(s.skip(i + 2), 65535)) {
                (Some((groups, scope)), Some(port)) => Some(
                    SocketAddrView::V6 { groups, port: port as u16, flow: 0, scope },
                ),
                _ => None,
            }
        } else {
            None
        },
        None => None,
    }
}

/// A socket address of either kind.
pub open spec fn socket_text(s: Seq<char>) -> Option<SocketAddrView> {
    match socket_v4_text(s) {
        Some(a) => Some(a),
        None => socket_v6_text(s),
    }
}

/// A parsed socket address, as the specification names it.
pub open spec fn socket_result(r: Option<SocketAddr>, p: Option<SocketAddrView>) -> bool {
    match r {
        Some(a) => p == Some(a@),
        None => p is None,
    }
}

/// A number of at least one decimal digit, read from text.
pub fn parse_plain(s: &[char], max: u64) -> (r: Option<u64>)
    requires
        max <= 0xffff_ffff,
    ensures
        match r {
            Some(v) => plain_number(s@, max as int) == Some(v as int) && v <= max,
            None => plain_number(s@, max as int) is None,
        },
{
    if s.len() == 0 {
        None
    } else {
        text::parse_number(s, 10, max)
    }
}

fn parse_socket_v4(s: &[char]) -> (r: Option<SocketAddr>)
    ensures
        socket_result(r, socket_v4_text(s@)),
{
    match text::find(s, ':') {
        Some(i) => {
            let ip = parse_ipv4(text::take(s, i));
            let port = parse_plain(text::behind(s, i), 65535);
            match (ip, port) {
                (Some(ip), Some(port)) => Some(SocketAddr::V4 { ip, port: port as u16 }),
                _ => None,
            }
        },
        None => None,
    }
}

fn parse_scoped(s: &[char]) -> (r: Option<(Ipv6Addr, u32)>)
    ensures
        match r {
            Some((ip, scope)) => scoped_text(s@) == Some((ip.segments@, scope)),
            None => scoped_text(s@) is None,
        },
{
    match text::find(s, '%') {
        Some(k) => {
            let ip = parse_ipv6(text::take(s, k));
            let scope = parse_plain(text::behind(s, k), 0xffff_ffff);
            match (ip, scope) {
                (Some(ip), Some(scope)) => Some((ip, scope as u32)),
                _ => None,
            }
        },
        None => match parse_ipv6(s) {
            Some(ip) => Some((ip, 0)),
            None => None,
        },
    }
}

fn parse_socket_v6(s: &[char]) -> (r: Option<SocketAddr>)
    ensures
        socket_result(r, socket_v6_text(s@)),
{
    match text::find(s, ']') {
        Some(i) => {
            let n: usize = s.len();
            if s[0] != '[' || i + 1 >= n || s[i + 1] != ':' {
                return None;
            }
            let inner = parse_scoped(slice_subrange(s, 1, i));
            let port = parse_plain(text::skip(s, i + 2), 65535);
            match (inner, port) {
                (Some((ip6, scope)), Some(port)) => Some(
                    SocketAddr::V6 { ip6, port: port as u16, flow: 0, scope },
                ),
                _ => None,
            }
        },
        None => None,
    }
}

/// A socket address of either kind, read from text.
pub fn parse_socket_addr(s: &[char]) -> (r: Option<SocketAddr>)
    ensures
        socket_result(r, socket_text(s@)),
{
    match parse_socket_v4(s) {
        Some(a) => Some(a),
        None => parse_socket_v6(s),
    }
}

impl SocketAddr {
    /// Whether two addresses are the same.
    pub fn same(&self, other: &SocketAddr) -> (r: bool)
        ensures
            r == (self@ == other@),
    {
        match (*self, *other) {
            (SocketAddr::V4 { ip: a, port: p }, SocketAddr::V4 { ip: b, port: q }) => a == b && p
                == q,
            (
                SocketAddr::V6 { ip6: a, port: p, flow: f, scope: s },
                SocketAddr::V6 { ip6: b, port: q, flow: g, scope: t },
            ) => {
                for i in 0..8
                    invariant
                        forall|j: int| 0 <= j < i ==> a.segments@[j] == b.segments@[j],
                        self@ == (SocketAddrView::V6 {
                            groups: a.segments@,
                            port: p,
                            flow: f,
                            scope: s,
                        }),
                        other@ == (SocketAddrView::V6 {
                            groups: b.segments@,
                            port: q,
                            flow: g,
                            scope: t,
                        }),
                {
                    let k: usize = i;
                    if a.segments[k] != b.segments[k] {
                        assert(a.segments@[k as int] != b.segments@[k as int]);
                        return false;
                    }
                }
                assert(a.segments@ =~= b.segments@);
                p == q && f == g && s == t
            },
            _ => false,
        }
    }

    /// The address `ip` with the given port.
    pub fn new(ip: IpAddr, port: u16) -> (r: Self)
        ensures
            match ip {
                IpAddr::V4(ip) => r == (SocketAddr::V4 { ip, port }),
                IpAddr::V6(ip6) => r == (SocketAddr::V6 { ip6, port, flow: 0, scope: 0 }),
            },
    {
        match ip {
            IpAddr::V4(ip) => SocketAddr::V4 { ip, port },
            IpAddr::V6(ip6) => SocketAddr::V6 { ip6, port, flow: 0, scope: 0 },
        }
    }

    /// The text form.
    pub fn to_string(&self) -> (r: String)
        ensures
            r@ == self@.text(),
    {
        match *self {
            SocketAddr::V4 { ip, port } => {
                let p = text::decimal_u64(port as u64);
                ip.to_string().concat(":").concat(p.as_str())
            },
            SocketAddr::V6 { ip6, port, flow: _, scope } => {
                let shown = ip6.to_string();
                let p = text::decimal_u64(port as u64);
                let head = "[".to_owned().concat(shown.as_str());
                if scope == 0 {
                    head.concat("]:").concat(p.as_str())
                } else {
                    let z = text::decimal_u64(scope as u64);
                    head.concat("%").concat(z.as_str()).concat("]:").concat(p.as_str())
                }
            },
        }
    }
}

// ---------------------------------------------------------------------------
// Laws
// ---------------------------------------------------------------------------

proof fn lemma_octet_is_read_back(n: nat)
    requires
        n <= 255,
    ensures
        octet_text(text::decimal(n as int)) == Some(n as int),
        !text::decimal(n as int).contains('.'),
        !text::decimal(n as int).contains(':'),
{
    text::law_digits_are_read_back(n, 10);
    text::lemma_octet_length(n);
    text::lemma_digits_lack(n, 10, '.');
    text::lemma_digits_lack(n, 10, ':');
}

/// The text form of an IPv4 address is read back as the address.
pub proof fn law_ipv4_text_is_read_back(ip: Ipv4Addr)
    ensures
        ipv4_text(ip.text()) == Some(ip),
{
    let b = ip.bytes();
    let d0 = text::decimal(b[0] as int);
    let d1 = text::decimal(b[1] as int);
    let d2 = text::decimal(b[2] as int);
    let d3 = text::decimal(b[3] as int);
    lemma_octet_is_read_back(b[0] as nat);
    lemma_octet_is_read_back(b[1] as nat);
    lemma_octet_is_read_back(b[2] as nat);
    lemma_octet_is_read_back(b[3] as nat);
    let two = d0.push('.') + d1;
    let three = two.push('.') + d2;
    text::lemma_one_field(d0, '.');
    text::lemma_last_field(d0, '.', d1);
    text::lemma_last_field(two, '.', d2);
    text::lemma_last_field(three, '.', d3);
    assert(ip.text() =~= three.push('.') + d3);
    assert(text::fields(ip.text(), '.') =~= seq![d0, d1, d2, d3]);
    lemma_join_bytes(ip);
}

proof fn lemma_ipv4_text_lacks(ip: Ipv4Addr, c: char)
    requires
        !text::is_digit(c),
        c != '.',
    ensures
        !ip.text().contains(c),
        ip.text().len() >= 7,
{
    let b = ip.bytes();
    text::lemma_digits_lack(b[0] as nat, 10, c);
    text::lemma_digits_lack(b[1] as nat, 10, c);
    text::lemma_digits_lack(b[2] as nat, 10, c);
    text::lemma_digits_lack(b[3] as nat, 10, c);
    text::law_digits_are_read_back(b[0] as nat, 10);
    text::law_digits_are_read_back(b[1] as nat, 10);
    text::law_digits_are_read_back(b[2] as nat, 10);
    text::law_digits_are_read_back(b[3] as nat, 10);
    let d0 = text::decimal(b[0] as int).push('.');
    let d1 = text::decimal(b[1] as int).push('.');
    let d2 = text::decimal(b[2] as int).push('.');
    let d3 = text::decimal(b[3] as int);
    lemma_push_lacks(text::decimal(b[0] as int), '.', c);
    lemma_push_lacks(text::decimal(b[1] as int), '.', c);
    lemma_push_lacks(text::decimal(b[2] as int), '.', c);
    lemma_join_lacks(d0, d1, c);
    lemma_join_lacks(d0 + d1, d2, c);
    lemma_join_lacks(d0 + d1 + d2, d3, c);
}

proof fn lemma_push_lacks(a: Seq<char>, b: char, c: char)
    requires
        !a.contains(c),
        b != c,
    ensures
        !a.push(b).contains(c),
{
    if a.push(b).contains(c) {
        let i = choose|i: int| 0 <= i < a.push(b).len() && a.push(b)[i] == c;
        assert(i < a.len() && a[i] == c);
    }
}

proof fn lemma_join_lacks(a: Seq<char>, b: Seq<char>, c: char)
    requires
        !a.contains(c),
        !b.contains(c),
    ensures
        !(a + b).contains(c),
{
    if (a + b).contains(c) {
        let i = choose|i: int| 0 <= i < (a + b).len() && (a + b)[i] == c;
        if i < a.len() {
            assert(a[i] == c);
        } else {
            assert(b[i - a.len()] == c);
        }
    }
}

proof fn lemma_port_is_read_back(n: nat, max: int)
    requires
        n <= max,
    ensures
        plain_number(text::decimal(n as int), max) == Some(n as int),
{
    text::law_digits_are_read_back(n, 10);
}

/// The text form of an IPv4 socket address is read back as the address and the port.
pub proof fn law_socket_v4_text_is_read_back(ip: Ipv4Addr, port: u16)
    ensures
        socket_text((SocketAddrView::V4 { ip, port }).text()) == Some(
            SocketAddrView::V4 { ip, port },
        ),
{
    reveal_strlit(":");
    let s = (SocketAddrView::V4 { ip, port }).text();
    let i = ip.text().len() as int;
    law_ipv4_text_is_read_back(ip);
    lemma_ipv4_text_lacks(ip, ':');
    assert(text::is_first(s, ':', i)) by {
        assert forall|j: int| 0 <= j < i implies s[j] != ':' by {
            assert(s[j] == ip.text()[j]);
        }
    }
    text::lemma_first_of(s, ':', i);
    assert(s.take(i) =~= ip.text());
    assert(s.skip(i + 1) =~= text::decimal(port as int));
    lemma_port_is_read_back(port as nat, 65535);
}

proof fn lemma_group_is_read_back(n: u16)
    ensures
        group_text(text::digits(n as nat, 16)) == Some(n),
        text::digits(n as nat, 16).len() >= 1,
{
    text::law_digits_are_read_back(n as nat, 16);
    text::lemma_group_length(n as nat);
}

/// The text neither begins nor ends with a colon, nor holds two in a row.
spec fn single_colons(s: Seq<char>) -> bool {
    &&& s.len() > 0
    &&& s[0] != ':'
    &&& s.last() != ':'
    &&& forall|i: int| 0 <= i < s.len() - 1 && #[trigger] s[i] == ':' ==> s[i + 1] != ':'
}

proof fn lemma_hex_list(g: Seq<u16>)
    requires
        g.len() > 0,
    ensures
        single_colons(hex_list(g)),
        text::fields(hex_list(g), ':').len() == g.len(),
        forall|i: int|
            0 <= i < g.len() ==> #[trigger] text::fields(hex_list(g), ':')[i] == text::digits(
                g[i] as nat,
                16,
            ),
    decreases g.len(),
{
    let d = text::digits(g.last() as nat, 16);
    let s = hex_list(g);
    text::law_digits_are_read_back(g.last() as nat, 16);
    text::lemma_digits_lack(g.last() as nat, 16, ':');
    assert(forall|i: int| 0 <= i < d.len() ==> text::is_digit(#[trigger] d[i]));
    assert(text::is_digit(d[0]));
    assert(text::is_digit(d.last()));
    if g.len() == 1 {
        text::lemma_one_field(d, ':');
        assert forall|i: int| 0 <= i < s.len() - 1 && #[trigger] s[i] == ':' implies s[i + 1]
            != ':' by {
            assert(text::is_digit(d[i]));
        }
    } else {
        let before = hex_list(g.drop_last());
        lemma_hex_list(g.drop_last());
        text::lemma_last_field(before, ':', d);
        assert forall|i: int| 0 <= i < g.len() implies #[trigger] text::fields(s, ':')[i]
            == text::digits(g[i] as nat, 16) by {
            if i < g.len() - 1 {
                assert(text::fields(before, ':')[i] == text::digits(g.drop_last()[i] as nat, 16));
            }
        }
        let n = before.len() as int;
        assert(s[n] == ':');
        assert(s[n + 1] == d[0]);
        assert(s.last() == d.last());
        assert(s[0] == before[0]);
        assert forall|i: int| 0 <= i < s.len() - 1 && #[trigger] s[i] == ':' implies s[i + 1]
            != ':' by {
            if i < n - 1 {
                assert(before[i] == s[i] && before[i + 1] == s[i + 1]);
            } else if i == n - 1 {
                assert(s[i] == before.last());
            } else if i > n {
                assert(text::is_digit(d[i - n - 1]));
            }
        }
    }
}

proof fn lemma_hex_groups_read(f: Seq<Seq<char>>, g: Seq<u16>, n: int)
    requires
        0 <= n <= g.len(),
        f.len() == g.len(),
        forall|i: int|
            0 <= i < g.len() ==> #[trigger] f[i] == text::digits(g[i] as nat, 16),
    ensures
        hex_groups(f, n) == Some(g.take(n)),
    decreases n,
{
    if n > 0 {
        lemma_hex_groups_read(f, g, n - 1);
        assert(f[n - 1] == text::digits(g[n - 1] as nat, 16));
        lemma_group_is_read_back(g[n - 1]);
        assert(g.take(n - 1).push(g[n - 1]) =~= g.take(n));
    } else {
        assert(g.take(0) =~= Seq::empty());
    }
}

proof fn lemma_groups_are_read_back(g: Seq<u16>, tail: bool)
    ensures
        groups_text(hex_list(g), tail) == Some(g),
{
    if g.len() == 0 {
        assert(g =~= Seq::empty());
    } else {
        lemma_hex_list(g);
        let f = text::fields(hex_list(g), ':');
        lemma_hex_groups_read(f, g, g.len() - 1);
        assert(f[g.len() - 1] == text::digits(g[g.len() - 1] as nat, 16));
        lemma_group_is_read_back(g.last());
        assert(g.take(g.len() - 1).push(g.last()) =~= g);
    }
}

proof fn lemma_gap_is_found(h: Seq<char>, t: Seq<char>)
    requires
        h.len() == 0 || single_colons(h),
    ensures
        text::first_text(h + seq![':', ':'] + t, seq![':', ':']) == Some(h.len() as int),
{
    let gap = seq![':', ':'];
    let s = h + gap + t;
    let n = h.len() as int;
    assert(s.subrange(n, n + 2) =~= gap);
    assert forall|j: int| 0 <= j < n implies !text::occurs_at(s, gap, j) by {
        if text::occurs_at(s, gap, j) {
            assert(s.subrange(j, j + 2)[0] == ':' && s.subrange(j, j + 2)[1] == ':');
            assert(s[j] == ':' && s[j + 1] == ':');
            assert(h[j] == ':');
            if j < n - 1 {
                assert(h[j + 1] == ':');
            } else {
                assert(h.last() == ':');
            }
        }
    }
    assert(text::is_first_text(s, gap, n));
    let k = choose|k: int| text::is_first_text(s, gap, k);
    assert(text::is_first_text(s, gap, k));
    assert(k == n);
}

proof fn lemma_no_gap(s: Seq<char>)
    requires
        single_colons(s),
    ensures
        text::first_text(s, seq![':', ':']) is None,
{
    let gap = seq![':', ':'];
    assert forall|j: int| !text::is_first_text(s, gap, j) by {
        if text::occurs_at(s, gap, j) {
            assert(s.subrange(j, j + 2)[0] == ':' && s.subrange(j, j + 2)[1] == ':');
            assert(s[j] == ':' && s[j + 1] == ':');
        }
    }
}

proof fn lemma_best_run(g: Seq<u16>, k: int) -> (i: int)
    requires
        0 <= k <= g.len(),
    ensures
        0 <= i <= k,
        forall|j: int| 0 <= j <= k ==> #[trigger] zero_run(g, j) <= zero_run(g, i),
        forall|j: int| 0 <= j < i ==> #[trigger] zero_run(g, j) < zero_run(g, i),
    decreases k,
{
    if k == 0 {
        0
    } else {
        let i = lemma_best_run(g, k - 1);
        if zero_run(g, k) > zero_run(g, i) {
            k
        } else {
            i
        }
    }
}

proof fn lemma_longest_run(g: Seq<u16>)
    ensures
        is_longest_run(g, longest_run(g)),
{
    let i = lemma_best_run(g, g.len() as int);
    assert(is_longest_run(g, i));
}

proof fn lemma_run_is_zero(g: Seq<u16>, i: int)
    requires
        0 <= i <= g.len(),
    ensures
        forall|j: int| i <= j < i + zero_run(g, i) ==> #[trigger] g[j] == 0,
    decreases g.len() - i,
{
    if i < g.len() && g[i] == 0 {
        lemma_run_is_zero(g, i + 1);
    }
}

/// The text form of an IPv6 address is read back as the address.
pub proof fn law_ipv6_text_is_read_back(g: Seq<u16>)
    requires
        g.len() == 8,
    ensures
        ipv6_text(ipv6_display(g)) == Some(g),
{
    if is_ipv4_mapped(g) {
        lemma_mapped_is_read_back(g);
    } else {
        let s = ipv6_display(g);
        let gap = seq![':', ':'];
        reveal(ipv6_display);
        reveal_strlit("::");
        assert("::"@ =~= gap);
        lemma_longest_run(g);
        let i = longest_run(g);
        lemma_zero_run_bounds(g, i);
        let n = zero_run(g, i);
        if n > 1 {
            let h = hex_list(g.take(i));
            let t = hex_list(g.skip(i + n));
            if i > 0 {
                lemma_hex_list(g.take(i));
            }
            lemma_gap_is_found(h, t);
            assert(s == h + gap + t);
            assert(s.take(h.len() as int) =~= h);
            assert(s.skip(h.len() as int + 2) =~= t);
            lemma_groups_are_read_back(g.take(i), false);
            lemma_groups_are_read_back(g.skip(i + n), true);
            lemma_run_is_zero(g, i);
            assert(around_gap(g.take(i), g.skip(i + n)) =~= g);
        } else {
            lemma_hex_list(g);
            lemma_no_gap(s);
            lemma_groups_are_read_back(g, true);
        }
    }
}

proof fn lemma_mapped_is_read_back(g: Seq<u16>)
    requires
        g.len() == 8,
        is_ipv4_mapped(g),
    ensures
        ipv6_text(ipv6_display(g)) == Some(g),
{
    let ip = Ipv4Addr { bits: (g[6] * 0x1_0000 + g[7]) as u32 };
    let t = seq!['f', 'f', 'f', 'f'].push(':') + ip.text();
    let tail = seq![0xffffu16, g[6], g[7]];
    lemma_mapped_display(g);
    lemma_mapped_tail(g[6], g[7]);
    lemma_read_behind_gap(t, tail);
    lemma_mapped_groups(g);
}

proof fn lemma_mapped_groups(g: Seq<u16>)
    requires
        g.len() == 8,
        is_ipv4_mapped(g),
    ensures
        around_gap(Seq::empty(), seq![0xffffu16, g[6], g[7]]) == g,
{
    assert(around_gap(Seq::empty(), seq![0xffffu16, g[6], g[7]]) =~= g);
}

proof fn lemma_mapped_display(g: Seq<u16>)
    requires
        is_ipv4_mapped(g),
    ensures
        ({
            let ip = Ipv4Addr { bits: (g[6] * 0x1_0000 + g[7]) as u32 };
            ipv6_display(g) == Seq::<char>::empty() + seq![':', ':'] + (seq![
                'f',
                'f',
                'f',
                'f',
            ].push(':') + ip.text())
        }),
{
    reveal(ipv6_display);
    reveal_strlit("::ffff:");
    let ip = Ipv4Addr { bits: (g[6] * 0x1_0000 + g[7]) as u32 };
    let head = seq![':', ':'] + seq!['f', 'f', 'f', 'f'].push(':');
    assert("::ffff:"@ =~= head);
    assert(head + ip.text() =~= Seq::<char>::empty() + seq![':', ':'] + (seq![
        'f',
        'f',
        'f',
        'f',
    ].push(':') + ip.text()));
}

proof fn lemma_read_behind_gap(t: Seq<char>, tail: Seq<u16>)
    requires
        groups_text(t, true) == Some(tail),
        tail.len() <= 7,
    ensures
        ipv6_text(Seq::<char>::empty() + seq![':', ':'] + t) == Some(
            around_gap(Seq::empty(), tail),
        ),
{
    let s = Seq::<char>::empty() + seq![':', ':'] + t;
    lemma_gap_is_found(Seq::empty(), t);
    assert(s.take(0) =~= Seq::<char>::empty());
    assert(s.skip(2) =~= t);
    assert(groups_text(Seq::<char>::empty(), false) == Some(Seq::<u16>::empty()));
}

proof fn lemma_mapped_tail(a: u16, b: u16)
    ensures
        ({
            let ip = Ipv4Addr { bits: (a * 0x1_0000 + b) as u32 };
            groups_text(seq!['f', 'f', 'f', 'f'].push(':') + ip.text(), true) == Some(
                seq![0xffffu16, a, b],
            )
        }),
{
    let ip = Ipv4Addr { bits: (a * 0x1_0000 + b) as u32 };
    let mark = seq!['f', 'f', 'f', 'f'];
    let t = mark.push(':') + ip.text();
    law_ipv4_text_is_read_back(ip);
    lemma_ipv4_text_lacks(ip, ':');
    text::lemma_one_field(mark, ':');
    text::lemma_last_field(mark, ':', ip.text());
    let f = text::fields(t, ':');
    assert(f =~= seq![mark, ip.text()]);
    lemma_mark_is_read_back();
    assert(hex_groups(f, 1) == Some(Seq::<u16>::empty().push(0xffff))) by {
        reveal_with_fuel(hex_groups, 2);
    }
    assert(group_text(ip.text()) is None);
    let tail = Seq::<u16>::empty().push(0xffff) + ipv4_groups(ip);
    assert(groups_text(t, true) == Some(tail));
    lemma_two_groups(a, b);
    assert(tail =~= seq![0xffffu16, a, b]);
}

proof fn lemma_two_groups(a: u16, b: u16)
    ensures
        ipv4_groups(Ipv4Addr { bits: (a * 0x1_0000 + b) as u32 }) == seq![a, b],
{
    let bits = (a * 0x1_0000 + b) as u32;
    assert(bits / 0x1_0000 == a && bits % 0x1_0000 == b);
    assert(ipv4_groups(Ipv4Addr { bits }) =~= seq![a, b]);
}

proof fn lemma_mark_is_read_back()
    ensures
        group_text(seq!['f', 'f', 'f', 'f']) == Some(0xffffu16),
{
    reveal_with_fuel(text::number, 5);
    assert(seq!['f', 'f', 'f', 'f'].drop_last() =~= seq!['f', 'f', 'f']);
    assert(seq!['f', 'f', 'f'].drop_last() =~= seq!['f', 'f']);
    assert(seq!['f', 'f'].drop_last() =~= seq!['f']);
    assert(seq!['f'].drop_last() =~= Seq::<char>::empty());
}

/// An IPv4 address is written with decimal digits and dots alone.
pub proof fn lemma_ipv4_characters(s: Seq<char>)
    requires
        ipv4_text(s) is Some,
    ensures
        forall|i: int| 0 <= i < s.len() ==> (#[trigger] s[i] == '.' || '0' <= s[i] <= '9'),
{
    let f = text::fields(s, '.');
    assert forall|i: int| 0 <= i < s.len() implies (#[trigger] s[i] == '.' || '0' <= s[i]
        <= '9') by {
        if s[i] != '.' {
            text::lemma_fields_cover(s, '.', i);
            let k = choose|k: int| 0 <= k < f.len() && (#[trigger] f[k]).contains(s[i]);
            assert(octet_text(f[k]) is Some);
            text::lemma_number_of_digits(f[k], 10);
            let j = choose|j: int| 0 <= j < f[k].len() && f[k][j] == s[i];
            assert(text::digit_value(f[k][j], 10) is Some);
        }
    }
}

proof fn lemma_hex_list_lacks(g: Seq<u16>, c: char)
    requires
        !text::is_digit(c),
        c != ':',
    ensures
        !hex_list(g).contains(c),
    decreases g.len(),
{
    if g.len() > 0 {
        text::lemma_digits_lack(g.last() as nat, 16, c);
        if g.len() > 1 {
            lemma_hex_list_lacks(g.drop_last(), c);
            lemma_push_lacks(hex_list(g.drop_last()), ':', c);
            lemma_join_lacks(
                hex_list(g.drop_last()).push(':'),
                text::digits(g.last() as nat, 16),
                c,
            );
        }
    }
}

proof fn lemma_ipv6_display_lacks(g: Seq<u16>, c: char)
    requires
        !text::is_digit(c),
        c != ':',
        c != '.',
    ensures
        !ipv6_display(g).contains(c),
{
    let i = longest_run(g);
    let n = zero_run(g, i);
    reveal(ipv6_display);
    reveal_strlit("::");
    reveal_strlit("::ffff:");
    if is_ipv4_mapped(g) {
        let ip = Ipv4Addr { bits: (g[6] * 0x1_0000 + g[7]) as u32 };
        lemma_ipv4_text_lacks(ip, c);
        assert(!"::ffff:"@.contains(c));
        lemma_join_lacks("::ffff:"@, ip.text(), c);
    } else if n > 1 {
        lemma_hex_list_lacks(g.take(i), c);
        lemma_hex_list_lacks(g.skip(i + n), c);
        assert(!"::"@.contains(c));
        lemma_join_lacks(hex_list(g.take(i)), "::"@, c);
        lemma_join_lacks(hex_list(g.take(i)) + "::"@, hex_list(g.skip(i + n)), c);
    } else {
        lemma_hex_list_lacks(g, c);
    }
}

/// The text form of an IPv6 socket address is read back as the address, the port and the
/// scope; a flow label, which it does not show, is lost.
pub proof fn law_socket_v6_text_is_read_back(groups: Seq<u16>, port: u16, flow: u32, scope: u32)
    requires
        groups.len() == 8,
    ensures
        socket_text((SocketAddrView::V6 { groups, port, flow, scope }).text()) == Some(
            SocketAddrView::V6 { groups, port, flow: 0, scope },
        ),
{
    let inner = scope_part(groups, scope);
    let p = text::decimal(port as int);
    lemma_v6_text_form(ipv6_display(groups), port, scope);
    lemma_scoped_is_read_back(groups, scope);
    lemma_brackets_are_found(inner, p);
    lemma_port_is_read_back(port as nat, 65535);
    lemma_bracket_is_not_ipv4(seq!['['] + inner + seq![']', ':'] + p);
}

proof fn lemma_v6_text_form(d: Seq<char>, port: u16, scope: u32)
    ensures
        ({
            let p = text::decimal(port as int);
            let z = text::decimal(scope as int);
            &&& "["@ + d + "]:"@ + p == seq!['['] + d + seq![']', ':'] + p
            &&& "["@ + d + "%"@ + z + "]:"@ + p == seq!['['] + (d.push('%') + z) + seq![']', ':']
                + p
        }),
{
    let p = text::decimal(port as int);
    let z = text::decimal(scope as int);
    reveal_strlit("[");
    reveal_strlit("%");
    reveal_strlit("]:");
    assert("["@ =~= seq!['[']);
    assert("]:"@ =~= seq![']', ':']);
    assert(seq!['['] + d + "%"@ + z =~= seq!['['] + (d.push('%') + z));
}

/// An IPv6 address with its scope, where it has one.
spec fn scope_part(groups: Seq<u16>, scope: u32) -> Seq<char> {
    if scope == 0 {
        ipv6_display(groups)
    } else {
        ipv6_display(groups).push('%') + text::decimal(scope as int)
    }
}

proof fn lemma_scoped_is_read_back(groups: Seq<u16>, scope: u32)
    requires
        groups.len() == 8,
    ensures
        scoped_text(scope_part(groups, scope)) == Some((groups, scope)),
        !scope_part(groups, scope).contains(']'),
{
    let d = ipv6_display(groups);
    let z = text::decimal(scope as int);
    let inner = scope_part(groups, scope);
    law_ipv6_text_is_read_back(groups);
    lemma_ipv6_display_lacks(groups, '%');
    lemma_ipv6_display_lacks(groups, ']');
    if scope == 0 {
        lemma_scope_is_absent(d);
    } else {
        text::lemma_digits_lack(scope as nat, 10, ']');
        lemma_port_is_read_back(scope as nat, 0xffff_ffff);
        lemma_push_lacks(d, '%', ']');
        lemma_join_lacks(d.push('%'), z, ']');
        let k = d.len() as int;
        assert(text::is_first(inner, '%', k)) by {
            assert forall|j: int| 0 <= j < k implies inner[j] != '%' by {
                assert(inner[j] == d[j]);
            }
        }
        text::lemma_first_of(inner, '%', k);
        assert(inner.take(k) =~= d);
        assert(inner.skip(k + 1) =~= z);
    }
}

proof fn lemma_brackets_are_found(inner: Seq<char>, p: Seq<char>)
    requires
        !inner.contains(']'),
    ensures
        ({
            let s = seq!['['] + inner + seq![']', ':'] + p;
            socket_v6_text(s) == match (scoped_text(inner), plain_number(p, 65535)) {
                (Some((groups, scope)), Some(port)) => Some(
                    SocketAddrView::V6 { groups, port: port as u16, flow: 0, scope },
                ),
                _ => None,
            }
        }),
{
    let s = seq!['['] + inner + seq![']', ':'] + p;
    let i = inner.len() as int + 1;
    assert(text::is_first(s, ']', i)) by {
        assert forall|j: int| 0 <= j < i implies s[j] != ']' by {
            if j > 0 {
                assert(s[j] == inner[j - 1]);
            }
        }
    }
    text::lemma_first_of(s, ']', i);
    assert(s.subrange(1, i) =~= inner);
    assert(s.skip(i + 2) =~= p);
    assert(s[0] == '[');
    assert(s[i + 1] == ':');
}

proof fn lemma_scope_is_absent(d: Seq<char>)
    requires
        !d.contains('%'),
    ensures
        text::first_of(d, '%') is None,
{
    assert forall|i: int| !text::is_first(d, '%', i) by {
        if text::is_first(d, '%', i) {
            assert(d.contains('%'));
        }
    }
}

proof fn lemma_bracket_is_not_ipv4(s: Seq<char>)
    requires
        s.len() > 0,
        s[0] == '[',
    ensures
        socket_v4_text(s) is None,
{
    if let Some(i) = text::first_of(s, ':') {
        assert(text::is_first(s, ':', i));
        if ipv4_text(s.take(i)) is Some {
            lemma_ipv4_characters(s.take(i));
            assert(i > 0);
            assert(s.take(i)[0] == '[');
        }
    }
}

/// What is read as an IPv6 address has eight groups.
pub proof fn lemma_eight_groups(s: Seq<char>)
    ensures
        ipv6_text(s) matches Some(g) ==> g.len() == 8,
{
}

#[verifier::rlimit(40)]
proof fn lemma_octets_of(a: u8, b: u8, c: u8, d: u8)
    ensures
        (Ipv4Addr { bits: (16777216 * a + 65536 * b + 256 * c + d) as u32 }).bytes() == seq![
            a,
            b,
            c,
            d,
        ],
{
    let high = a * 256 + b;
    let middle = high * 256 + c;
    let bits = middle * 256 + d;
    assert(16777216 * a + 65536 * b + 256 * c + d == bits);
    assert(bits / 256 == middle && bits % 256 == d);
    assert(middle / 256 == high && middle % 256 == c);
    assert(high / 256 == a && high % 256 == b);
    assert(bits / 0x1_0000 == high);
    assert(bits / 0x100_0000 == a);
    let ip = Ipv4Addr { bits: bits as u32 };
    assert(ip.bytes() =~= seq![a, b, c, d]);
}

proof fn lemma_dots_between(a: Seq<char>, b: Seq<char>, c: Seq<char>, d: Seq<char>)
    ensures
        a.push('.') + b.push('.') + c.push('.') + d == a + "."@ + b + "."@ + c + "."@ + d,
{
    reveal_strlit(".");
    assert(a.push('.') + b.push('.') + c.push('.') + d =~= a + "."@ + b + "."@ + c + "."@ + d);
}

/// Four octets with dots between them are the address whose highest byte is the first of them
/// and whose lowest is the last.
#[verifier::rlimit(40)]
pub proof fn law_dotted_decimal(a: u8, b: u8, c: u8, d: u8)
    ensures
        ({
            let ip = Ipv4Addr { bits: (16777216 * a + 65536 * b + 256 * c + d) as u32 };
            let s = text::decimal(a as int) + "."@ + text::decimal(b as int) + "."@ + text::decimal(
                c as int,
            ) + "."@ + text::decimal(d as int);
            &&& ip.bytes() == seq![a, b, c, d]
            &&& ip.text() == s
            &&& ipv4_text(s) == Some(ip)
        }),
{
    let ip = Ipv4Addr { bits: (16777216 * a + 65536 * b + 256 * c + d) as u32 };
    lemma_octets_of(a, b, c, d);
    lemma_dots_between(
        text::decimal(a as int),
        text::decimal(b as int),
        text::decimal(c as int),
        text::decimal(d as int),
    );
    law_ipv4_text_is_read_back(ip);
}

#[verifier::rlimit(40)]
proof fn lemma_number_has_one_text(s: Seq<char>, v: int)
    requires
        s.len() > 0,
        s.len() == 1 || s[0] != '0',
        text::number(s, 10) == Some(v),
    ensures
        v >= 0,
        s.len() > 1 ==> v >= 10,
        text::decimal(v) == s,
    decreases s.len(),
{
    text::lemma_number_of_digits(s, 10);
    let n = s.len() - 1;
    assert(text::digit_value(s[n], 10) is Some);
    let d = text::digit_value(s.last(), 10)->0;
    assert(text::digit_char(d) == s.last());
    if s.len() == 1 {
        assert(s.drop_last() =~= Seq::empty());
        assert(text::number(s.drop_last(), 10) == Some(0int));
        assert(text::decimal(v) =~= s);
    } else {
        let rest = s.drop_last();
        let w = text::number(rest, 10)->0;
        assert(rest[0] == s[0]);
        lemma_number_has_one_text(rest, w);
        if rest.len() == 1 {
            assert(text::digit_value(s[0], 10) is Some);
            assert(rest.drop_last() =~= Seq::empty());
            assert(text::number(rest.drop_last(), 10) == Some(0int));
            assert(w >= 1);
        }
        assert(v == w * 10 + d);
        assert(text::digits(v as nat, 10) == text::digits(w as nat, 10).push(text::digit_char(d)));
        assert(text::decimal(v) =~= s);
    }
}

/// An address has one text and no other: whatever is read as an address is how the address is
/// written, without zeros in front of an octet and without octets above 255.
#[verifier::rlimit(40)]
pub proof fn law_addresses_have_one_text(s: Seq<char>)
    requires
        ipv4_text(s) is Some,
    ensures
        s == ipv4_text(s)->0.text(),
{
    let f = text::fields(s, '.');
    let ip = ipv4_text(s)->0;
    let a = octet_text(f[0])->0;
    let b = octet_text(f[1])->0;
    let c = octet_text(f[2])->0;
    let d = octet_text(f[3])->0;
    lemma_number_has_one_text(f[0], a);
    lemma_number_has_one_text(f[1], b);
    lemma_number_has_one_text(f[2], c);
    lemma_number_has_one_text(f[3], d);
    law_dotted_decimal(a as u8, b as u8, c as u8, d as u8);
    reveal_strlit(".");
    lemma_fields_join(s, '.');
    assert(s == joined(f, '.'));
    reveal_with_fuel(joined, 5);
    assert(f.drop_last().drop_last().drop_last() =~= seq![f[0]]);
    assert(f.drop_last().drop_last().last() == f[1]);
    assert(f.drop_last().last() == f[2]);
    assert(s =~= f[0] + "."@ + f[1] + "."@ + f[2] + "."@ + f[3]);
}

spec fn joined(f: Seq<Seq<char>>, c: char) -> Seq<char>
    decreases f.len(),
{
    if f.len() == 0 {
        Seq::empty()
    } else if f.len() == 1 {
        f[0]
    } else {
        joined(f.drop_last(), c).push(c) + f.last()
    }
}

#[verifier::rlimit(40)]
proof fn lemma_fields_join(s: Seq<char>, c: char)
    ensures
        s == joined(text::fields(s, c), c),
        text::fields(s, c).len() > 0,
    decreases s.len(),
{
    if s.len() == 0 {
        assert(s =~= Seq::empty());
    } else {
        let rest = s.drop_last();
        lemma_fields_join(rest, c);
        let before = text::fields(rest, c);
        let all = text::fields(s, c);
        if s.last() == c {
            assert(all.drop_last() =~= before);
            assert(s =~= joined(all, c));
        } else {
            assert(all.drop_last() =~= before.drop_last());
            assert(all.last() == before.last().push(s.last()));
            assert(s =~= rest.push(s.last()));
            if before.len() == 1 {
                assert(all[0] == all.last() && before[0] == before.last());
            } else {
                let front = joined(before.drop_last(), c).push(c);
                assert((front + before.last()).push(s.last()) =~= front + all.last());
            }
            assert(s =~= joined(all, c));
        }
    }
}

/// Eight groups in hexadecimal with colons between them are read as these groups, in their
/// order, also where the address has a shorter text.
pub proof fn law_written_out_groups_are_read(g: Seq<u16>)
    requires
        g.len() == 8,
    ensures
        ipv6_text(hex_list(g)) == Some(g),
{
    lemma_hex_list(g);
    lemma_no_gap(hex_list(g));
    lemma_groups_are_read_back(g, true);
}

#[verifier::rlimit(40)]
proof fn lemma_gap_is_read(h: Seq<u16>, t: Seq<u16>)
    requires
        h.len() + t.len() <= 7,
    ensures
        ipv6_text(hex_list(h) + seq![':', ':'] + hex_list(t)) == Some(around_gap(h, t)),
{
    let s = hex_list(h) + seq![':', ':'] + hex_list(t);
    if h.len() > 0 {
        lemma_hex_list(h);
    }
    lemma_gap_is_found(hex_list(h), hex_list(t));
    let n = hex_list(h).len() as int;
    assert(s.take(n) =~= hex_list(h));
    assert(s.skip(n + 2) =~= hex_list(t));
    lemma_groups_are_read_back(h, false);
    lemma_groups_are_read_back(t, true);
}

/// Two colons in a row stand for as many zeros as are missing, wherever they stand.
pub proof fn law_gaps_are_filled_with_zeros(h: Seq<u16>, t: Seq<u16>, n: nat)
    requires
        n >= 1,
        h.len() + n + t.len() == 8,
    ensures
        ipv6_text(hex_list(h) + "::"@ + hex_list(t)) == Some(h + Seq::new(n, |i: int| 0u16) + t),
{
    reveal_strlit("::");
    assert("::"@ =~= seq![':', ':']);
    lemma_gap_is_read(h, t);
}

pub(crate) proof fn lemma_ipv4_is_no_socket(ip: Ipv4Addr)
    ensures
        socket_text(ip.text()) is None,
        ip.text().len() > 0,
        !text::is_white(ip.text()[0]),
        !text::is_white(ip.text().last()),
{
    let s = ip.text();
    law_ipv4_text_is_read_back(ip);
    lemma_ipv4_characters(s);
    lemma_ipv4_text_lacks(ip, ':');
    assert(s.len() > 0) by {
        text::law_digits_are_read_back(ip.bytes()[0] as nat, 10);
        if s.len() == 0 {
            assert(s[0] == s[0]);
        }
    }
    text::law_characters_are_found(s, ':', Seq::empty());
    assert(s[0] == '.' || '0' <= s[0] <= '9');
    assert(s[s.len() - 1] == '.' || '0' <= s[s.len() - 1] <= '9');
}

pub(crate) proof fn lemma_v4_socket_is_black(ip: Ipv4Addr, port: u16)
    ensures
        ({
            let s = (SocketAddrView::V4 { ip, port }).text();
            s.len() > 0 && !text::is_white(s[0]) && !text::is_white(s.last())
        }),
{
    let s = (SocketAddrView::V4 { ip, port }).text();
    let d = text::digits(port as nat, 10);
    lemma_ipv4_is_no_socket(ip);
    text::law_digits_are_read_back(port as nat, 10);
    assert(s[0] == ip.text()[0]);
    assert(s.last() == d[d.len() - 1]);
    assert(text::is_digit(d[d.len() - 1]));
}

#[verifier::rlimit(40)]
pub(crate) proof fn lemma_ipv6_is_no_socket(g: Seq<u16>)
    requires
        g.len() == 8,
    ensures
        socket_text(ipv6_display(g)) is None,
        ipv4_text(ipv6_display(g)) is None,
        ipv6_display(g).len() > 0,
        !text::is_white(ipv6_display(g)[0]),
        !text::is_white(ipv6_display(g).last()),
{
    let s = ipv6_display(g);
    law_ipv6_text_is_read_back(g);
    lemma_ipv6_display_lacks(g, ']');
    text::law_characters_are_found(s, ']', Seq::empty());
    if s.len() == 0 {
        lemma_nothing_is_no_ipv6(s);
        assert(false);
    }
    if text::is_white(s[0]) {
        lemma_ipv6_display_lacks(g, s[0]);
        assert(s.contains(s[0]));
    }
    if text::is_white(s.last()) {
        lemma_ipv6_display_lacks(g, s.last());
        assert(s.contains(s[s.len() - 1]));
    }
    lemma_ipv6_head_is_no_ipv4(g);
    assert(socket_v4_text(s) is None);
}

pub(crate) proof fn lemma_nothing_is_no_ipv6(s: Seq<char>)
    requires
        s.len() == 0,
    ensures
        ipv6_text(s) is None,
{
    assert forall|j: int| !text::is_first_text(s, seq![':', ':'], j) by {}
}

proof fn lemma_dotless_is_no_ipv4(s: Seq<char>)
    requires
        !s.contains('.'),
    ensures
        ipv4_text(s) is None,
{
    text::lemma_one_field(s, '.');
}

#[verifier::rlimit(40)]
proof fn lemma_ipv6_head_is_no_ipv4(g: Seq<u16>)
    requires
        g.len() == 8,
    ensures
        ipv4_text(ipv6_display(g)) is None,
        text::first_of(ipv6_display(g), ':') matches Some(i) ==> ipv4_text(
            ipv6_display(g).take(i),
        ) is None,
{
    let s = ipv6_display(g);
    let i = longest_run(g);
    let n = zero_run(g, i);
    reveal(ipv6_display);
    reveal_strlit("::");
    reveal_strlit("::ffff:");
    if is_ipv4_mapped(g) {
        assert(s[0] == ':');
        text::lemma_first_of(s, ':', 0);
        assert(!s.take(0).contains('.'));
        lemma_dotless_is_no_ipv4(s.take(0));
        if ipv4_text(s) is Some {
            lemma_ipv4_characters(s);
            assert(s[0] == '.' || '0' <= s[0] <= '9');
        }
    } else {
        if n > 1 {
            lemma_hex_list_lacks(g.take(i), '.');
            lemma_hex_list_lacks(g.skip(i + n), '.');
            assert(!"::"@.contains('.'));
            lemma_join_lacks(hex_list(g.take(i)), "::"@, '.');
            lemma_join_lacks(hex_list(g.take(i)) + "::"@, hex_list(g.skip(i + n)), '.');
        } else {
            lemma_hex_list_lacks(g, '.');
        }
        assert(!s.contains('.'));
        lemma_dotless_is_no_ipv4(s);
        if let Some(k) = text::first_of(s, ':') {
            assert(text::is_first(s, ':', k));
            assert(!s.take(k).contains('.')) by {
                if s.take(k).contains('.') {
                    let j = choose|j: int| 0 <= j < k && s.take(k)[j] == '.';
                    assert(s[j] == '.');
                }
            }
            lemma_dotless_is_no_ipv4(s.take(k));
        }
    }
}

#[verifier::rlimit(40)]
pub(crate) proof fn lemma_ipv4_is_no_ipv6(ip: Ipv4Addr)
    ensures
        ipv6_text(ip.text()) is None,
{
    let s = ip.text();
    lemma_ipv4_text_lacks(ip, ':');
    assert forall|j: int| !text::is_first_text(s, seq![':', ':'], j) by {
        if text::occurs_at(s, seq![':', ':'], j) {
            assert(s.subrange(j, j + 2)[0] == ':');
            assert(s[j] == ':');
        }
    }
    text::lemma_one_field(s, ':');
    let f = text::fields(s, ':');
    assert(f.last() == s);
    assert(hex_groups(f, 0) == Some(Seq::<u16>::empty()));
    if let Some(g) = groups_text(s, true) {
        assert(g.len() <= 2);
    }
}

/// What is read as an IPv4 socket address is the text of the address, a colon and the digits of
/// the port, at least one.
#[verifier::rlimit(40)]
pub proof fn law_socket_addresses_have_a_port(s: Seq<char>)
    requires
        socket_text(s) matches Some(a) && a is V4,
    ensures
        ({
            let ip = socket_text(s)->0->V4_ip;
            let port = socket_text(s)->0->V4_port;
            let n = ip.text().len() as int;
            &&& n + 1 < s.len()
            &&& s.take(n) == ip.text()
            &&& s[n] == ':'
            &&& text::number(s.skip(n + 1), 10) == Some(port as int)
        }),
{
    let i = text::first_of(s, ':')->0;
    if text::first_of(s, ':') is Some {
        assert(text::is_first(s, ':', i));
        let p = s.skip(i + 1);
        text::lemma_number_grows(p, 10, p.len() as int);
        assert(p.take(p.len() as int) == p);
        assert(s.take(i).len() == i);
        if ipv4_text(s.take(i)) is Some {
            law_addresses_have_one_text(s.take(i));
        }
    }
}

/// From `i` on there are `n` groups of zero in a row.
pub open spec fn zeros_at(g: Seq<u16>, i: int, n: int) -> bool {
    &&& 0 <= i
    &&& 0 <= n
    &&& i + n <= g.len()
    &&& forall|j: int| i <= j < i + n ==> g[j] == 0
}

proof fn lemma_run_covers(g: Seq<u16>, i: int, n: int)
    requires
        zeros_at(g, i, n),
    ensures
        zero_run(g, i) >= n,
    decreases n,
{
    lemma_zero_run_bounds(g, i);
    if n > 0 {
        assert(g[i] == 0);
        lemma_run_covers(g, i + 1, n - 1);
    }
}

proof fn lemma_run_is_zeros(g: Seq<u16>, i: int)
    requires
        0 <= i <= g.len(),
    ensures
        zeros_at(g, i, zero_run(g, i)),
{
    lemma_zero_run_bounds(g, i);
    lemma_run_is_zero(g, i);
}

/// An IPv6 address is written with two colons for its longest row of zeros, the first of them if
/// there are several, and with all its groups if no two zeros stand side by side; an IPv4 address
/// that is mapped into IPv6 is written in dotted decimal.
#[verifier::rlimit(40)]
pub proof fn law_longest_zeros_are_left_out(g: Seq<u16>, i: int, n: int)
    requires
        g.len() == 8,
        zeros_at(g, i, n),
        forall|j: int, m: int| #[trigger]
            zeros_at(g, j, m) ==> m <= n && (m == n && n >= 2 ==> i <= j),
    ensures
        ({
            let mapped = g[0] == 0 && g[1] == 0 && g[2] == 0 && g[3] == 0 && g[4] == 0 && g[5]
                == 0xffff;
            &&& mapped ==> ipv6_display(g) == "::ffff:"@ + (Ipv4Addr {
                bits: (65536 * g[6] + g[7]) as u32,
            }).text()
            &&& !mapped && n >= 2 ==> ipv6_display(g) == hex_list(g.take(i)) + "::"@ + hex_list(
                g.skip(i + n),
            )
            &&& !mapped && n < 2 ==> ipv6_display(g) == hex_list(g)
        }),
{
    reveal(ipv6_display);
    lemma_longest_run(g);
    let k = longest_run(g);
    lemma_run_covers(g, i, n);
    lemma_run_is_zeros(g, i);
    lemma_run_is_zeros(g, k);
    assert(zero_run(g, i) == n);
    assert(zero_run(g, k) == n);
    if n >= 2 {
        assert(i <= k);
    }
}

/// Groups are written in hexadecimal, in small digits and without zeros in front, with colons
/// between them.
pub proof fn law_groups_are_written_in_a_row(g: Seq<u16>, x: u16)
    ensures
        hex_list(Seq::empty()).len() == 0,
        g.len() > 0 ==> hex_list(g.push(x)) == hex_list(g).push(':') + text::digits(x as nat, 16),
        hex_list(seq![x]) == text::digits(x as nat, 16),
{
    assert(g.push(x).drop_last() =~= g);
}

} // verus!
