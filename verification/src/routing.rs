//! Where a target is sent: through the tunnel, or round it.

use vstd::prelude::*;
use crate::addr;
use crate::addr::{Ipv4Addr, SocketAddr, SocketAddrView};
use crate::dns_resolver;
use crate::dns_resolver::{DnsCache, Lookup, LookupStep, ResolveResult, ResolveSource};
use crate::error;
use crate::error::{EcError, EcErrorView, EcResult};
use crate::route_table;
use crate::route_table::{DnsRecord, PortRange, RouteRule, RouteTable};
use crate::text;

verus! {

// ---------------------------------------------------------------------------
// Plans
// ---------------------------------------------------------------------------

/// How many rules, servers and records were installed.
#[derive(Debug, Clone)]
pub struct RouteInstallSummary {
    pub rule_count: usize,
    pub dns_server_count: usize,
    pub dns_record_count: usize,
}

/// Where a target is sent.
#[derive(Debug, Clone)]
pub enum RoutePlan {
    /// Through the tunnel, to the address to dial there.
    Remote { dial: String, rc_id: i32, rc_name: String, source: RouteSource },
    /// Round the tunnel.
    Fallback { target: String, reason: String, reserved_proto1: bool },
}

/// What the address of a remote plan rests on. A plan gives `RuleIp`, `DnsMap`,
/// `DnsServerCache`, `DnsServerQuery`, `ExtraIp` or `RouteTableUnavailable`. No plan gives
/// `DnsDataIpRule`, `CnameDnsServerCache`, `CnameDnsServerQuery`, `DnsServerIpRuleCache` or
/// `DnsServerIpRuleQuery`: a domain that no rule names is not looked up, so neither its
/// aliases nor its addresses are matched against the rules.
#[derive(Debug, Clone, Copy, PartialEq, Eq)]
pub enum RouteSource {
    RuleIp,
    DnsMap,
    DnsServerCache,
    DnsServerQuery(SocketAddr),
    DnsDataIpRule,
    CnameDnsServerCache,
    CnameDnsServerQuery(SocketAddr),
    DnsServerIpRuleCache,
    DnsServerIpRuleQuery(SocketAddr),
    ExtraIp,
    RouteTableUnavailable,
}

/// A source as plain values.
pub ghost enum RouteSourceView {
    RuleIp,
    DnsMap,
    DnsServerCache,
    DnsServerQuery(SocketAddrView),
    DnsDataIpRule,
    CnameDnsServerCache,
    CnameDnsServerQuery(SocketAddrView),
    DnsServerIpRuleCache,
    DnsServerIpRuleQuery(SocketAddrView),
    ExtraIp,
    RouteTableUnavailable,
}

impl View for RouteSource {
    type V = RouteSourceView;

    open spec fn view(&self) -> RouteSourceView {
        match *self {
            RouteSource::RuleIp => RouteSourceView::RuleIp,
            RouteSource::DnsMap => RouteSourceView::DnsMap,
            RouteSource::DnsServerCache => RouteSourceView::DnsServerCache,
            RouteSource::DnsServerQuery(a) => RouteSourceView::DnsServerQuery(a@),
            RouteSource::DnsDataIpRule => RouteSourceView::DnsDataIpRule,
            RouteSource::CnameDnsServerCache => RouteSourceView::CnameDnsServerCache,
            RouteSource::CnameDnsServerQuery(a) => RouteSourceView::CnameDnsServerQuery(a@),
            RouteSource::DnsServerIpRuleCache => RouteSourceView::DnsServerIpRuleCache,
            RouteSource::DnsServerIpRuleQuery(a) => RouteSourceView::DnsServerIpRuleQuery(a@),
            RouteSource::ExtraIp => RouteSourceView::ExtraIp,
            RouteSource::RouteTableUnavailable => RouteSourceView::RouteTableUnavailable,
        }
    }
}

impl RouteSourceView {
    /// The name of the source.
    pub open spec fn label(self) -> Seq<char> {
        match self {
            RouteSourceView::RuleIp => "rule-ip"@,
            RouteSourceView::DnsMap => "dns-map"@,
            RouteSourceView::DnsServerCache => "dns-cache"@,
            RouteSourceView::DnsServerQuery(_) => "dns-server"@,
            RouteSourceView::DnsDataIpRule => "dns-data-ip-rule"@,
            RouteSourceView::CnameDnsServerCache => "cname-dns-cache"@,
            RouteSourceView::CnameDnsServerQuery(_) => "cname-dns-server"@,
            RouteSourceView::DnsServerIpRuleCache => "dns-cache-ip-rule"@,
            RouteSourceView::DnsServerIpRuleQuery(_) => "dns-server-ip-rule"@,
            RouteSourceView::ExtraIp => "extra-ip"@,
            RouteSourceView::RouteTableUnavailable => "route-table-unavailable"@,
        }
    }

    /// The server that gave the address, where one did.
    pub open spec fn server(self) -> Option<SocketAddrView> {
        match self {
            RouteSourceView::DnsServerQuery(a) => Some(a),
            RouteSourceView::CnameDnsServerQuery(a) => Some(a),
            RouteSourceView::DnsServerIpRuleQuery(a) => Some(a),
            _ => None,
        }
    }

    /// The name of the source, with the server in brackets.
    pub open spec fn description(self) -> Seq<char> {
        match self.server() {
            Some(a) => self.label() + "("@ + a.text() + ")"@,
            None => self.label(),
        }
    }
}

impl RouteSource {
    /// The name of the source.
    pub fn label(self) -> (r: &'static str)
        ensures
            r@ == self@.label(),
    {
        match self {
            RouteSource::RuleIp => "rule-ip",
            RouteSource::DnsMap => "dns-map",
            RouteSource::DnsServerCache => "dns-cache",
            RouteSource::DnsServerQuery(_) => "dns-server",
            RouteSource::DnsDataIpRule => "dns-data-ip-rule",
            RouteSource::CnameDnsServerCache => "cname-dns-cache",
            RouteSource::CnameDnsServerQuery(_) => "cname-dns-server",
            RouteSource::DnsServerIpRuleCache => "dns-cache-ip-rule",
            RouteSource::DnsServerIpRuleQuery(_) => "dns-server-ip-rule",
            RouteSource::ExtraIp => "extra-ip",
            RouteSource::RouteTableUnavailable => "route-table-unavailable",
        }
    }

    /// The server that gave the address, where one did.
    pub fn server(self) -> (r: Option<SocketAddr>)
        ensures
            text::shown(r) == self@.server(),
    {
        match self {
            RouteSource::DnsServerQuery(a) => Some(a),
            RouteSource::CnameDnsServerQuery(a) => Some(a),
            RouteSource::DnsServerIpRuleQuery(a) => Some(a),
            _ => None,
        }
    }

    /// The name of the source, with the server in brackets.
    pub fn describe(self) -> (r: String)
        ensures
            r@ == self@.description(),
    {
        match self.server() {
            Some(a) => {
                let shown = a.to_string();
                self.label().to_owned().concat("(").concat(shown.as_str()).concat(")")
            },
            None => self.label().to_owned(),
        }
    }
}

/// A plan as plain values.
#[verifier::ext_equal]
pub ghost enum PlanView {
    Remote { dial: Seq<char>, rc_id: i32, rc_name: Seq<char>, source: RouteSourceView },
    Fallback { target: Seq<char>, reason: Seq<char>, reserved_proto1: bool },
}

impl View for RoutePlan {
    type V = PlanView;

    open spec fn view(&self) -> PlanView {
        match *self {
            RoutePlan::Remote { dial, rc_id, rc_name, source } => PlanView::Remote {
                dial: dial@,
                rc_id,
                rc_name: rc_name@,
                source: source@,
            },
            RoutePlan::Fallback { target, reason, reserved_proto1 } => PlanView::Fallback {
                target: target@,
                reason: reason@,
                reserved_proto1,
            },
        }
    }
}

/// A host, a colon and a port.
pub open spec fn with_port(host: Seq<char>, port: u16) -> Seq<char> {
    host + ":"@ + text::decimal(port as int)
}

fn join_port(host: &str, port: u16) -> (r: String)
    ensures
        r@ == with_port(host@, port),
{
    let p = text::decimal_u64(port as u64);
    host.to_owned().concat(":").concat(p.as_str())
}

// ---------------------------------------------------------------------------
// Matchers
// ---------------------------------------------------------------------------

/// The hosts that a rule is for.
#[derive(Debug, Clone)]
pub enum HostMatcher {
    Domain(String),
    Ipv4(Ipv4Addr),
    Ipv4Range(u32, u32),
}

/// A matcher as plain values.
#[verifier::ext_equal]
pub ghost enum MatcherView {
    Domain(Seq<char>),
    Ipv4(Ipv4Addr),
    Ipv4Range(u32, u32),
}

impl View for HostMatcher {
    type V = MatcherView;

    open spec fn view(&self) -> MatcherView {
        match *self {
            HostMatcher::Domain(d) => MatcherView::Domain(d@),
            HostMatcher::Ipv4(ip) => MatcherView::Ipv4(ip),
            HostMatcher::Ipv4Range(a, b) => MatcherView::Ipv4Range(a, b),
        }
    }
}

/// What a target names.
#[derive(Debug, Clone)]
pub enum TargetKind {
    Domain(String),
    Ipv4(Ipv4Addr),
}

/// A target as plain values.
#[verifier::ext_equal]
pub ghost enum TargetView {
    Domain(Seq<char>),
    Ipv4(Ipv4Addr),
}

impl View for TargetKind {
    type V = TargetView;

    open spec fn view(&self) -> TargetView {
        match *self {
            TargetKind::Domain(d) => TargetView::Domain(d@),
            TargetKind::Ipv4(ip) => TargetView::Ipv4(ip),
        }
    }
}

/// A domain without surrounding white space, dots at its end and capitals.
pub open spec fn domain_of(host: Seq<char>) -> Seq<char> {
    text::lowered(text::trim_end_char(text::trimmed(host), '.'))
}

/// What a host names: an IPv4 address if it is written like one, a domain otherwise.
pub open spec fn target_of(host: Seq<char>) -> TargetView {
    match addr::ipv4_text(text::trimmed(host)) {
        Some(ip) => TargetView::Ipv4(ip),
        None => TargetView::Domain(domain_of(host)),
    }
}

/// The target is among the hosts of the matcher.
pub open spec fn host_matches(m: MatcherView, t: TargetView) -> bool {
    match (m, t) {
        (MatcherView::Domain(a), TargetView::Domain(b)) => a == b,
        (MatcherView::Ipv4(a), TargetView::Ipv4(b)) => a == b,
        (MatcherView::Ipv4Range(a, b), TargetView::Ipv4(ip)) => a <= ip.bits <= b,
        _ => false,
    }
}

/// The port is in the range.
pub open spec fn port_matches(range: PortRange, port: u16) -> bool {
    range.start <= port <= range.end
}

/// The addresses between two, whichever of them is the lower.
pub open spec fn range_between(a: Ipv4Addr, b: Ipv4Addr) -> MatcherView {
    if a.bits <= b.bits {
        MatcherView::Ipv4Range(a.bits, b.bits)
    } else {
        MatcherView::Ipv4Range(b.bits, a.bits)
    }
}

/// The range of two addresses with a tilde between them at `i`.
pub open spec fn range_text(host: Seq<char>, i: int) -> Option<MatcherView> {
    match (
        addr::ipv4_text(text::trimmed(host.take(i))),
        addr::ipv4_text(text::trimmed(host.skip(i + 1))),
    ) {
        (Some(a), Some(b)) => Some(range_between(a, b)),
        _ => None,
    }
}

/// The matcher that the host of a rule stands for: a range, an address or a domain.
pub open spec fn matcher_of(host: Seq<char>) -> Option<MatcherView> {
    match text::first_of(host, '~') {
        Some(i) => range_text(host, i),
        None => match addr::ipv4_text(text::trimmed(host)) {
            Some(ip) => Some(MatcherView::Ipv4(ip)),
            None => if domain_of(host).len() == 0 {
                None
            } else {
                Some(MatcherView::Domain(domain_of(host)))
            },
        },
    }
}

fn normalize_domain(host: &[char]) -> (r: Vec<char>)
    ensures
        r@ == domain_of(host@),
{
    text::lower(text::trim_end_matches(text::trim(host), '.'))
}

/// What a host names.
pub fn parse_target(host: &str) -> (r: TargetKind)
    ensures
        r@ == target_of(host@),
{
    let cs = text::chars_of(host);
    match addr::parse_ipv4(text::trim(cs.as_slice())) {
        Some(ip) => TargetKind::Ipv4(ip),
        None => {
            let domain = normalize_domain(cs.as_slice());
            TargetKind::Domain(text::text_of(domain.as_slice()))
        },
    }
}

fn in_range(range: PortRange, port: u16) -> (r: bool)
    ensures
        r == port_matches(range, port),
{
    range.start <= port && port <= range.end
}

fn is_host(m: &HostMatcher, t: &TargetKind) -> (r: bool)
    ensures
        r == host_matches(m@, t@),
{
    match (m, t) {
        (HostMatcher::Domain(a), TargetKind::Domain(b)) => *a == *b,
        (HostMatcher::Ipv4(a), TargetKind::Ipv4(b)) => *a == *b,
        (HostMatcher::Ipv4Range(a, b), TargetKind::Ipv4(ip)) => *a <= ip.bits && ip.bits <= *b,
        _ => false,
    }
}

fn parse_range(host: &[char], i: usize) -> (r: Option<HostMatcher>)
    requires
        i < host@.len(),
    ensures
        text::shown(r) == range_text(host@, i as int),
{
    let a = addr::parse_ipv4(text::trim(text::take(host, i)));
    let b = addr::parse_ipv4(text::trim(text::behind(host, i)));
    match (a, b) {
        (Some(a), Some(b)) => if a.bits <= b.bits {
            Some(HostMatcher::Ipv4Range(a.bits, b.bits))
        } else {
            Some(HostMatcher::Ipv4Range(b.bits, a.bits))
        },
        _ => None,
    }
}

fn parse_matcher(host: &[char]) -> (r: Option<HostMatcher>)
    ensures
        text::shown(r) == matcher_of(host@),
{
    match text::find(host, '~') {
        Some(i) => parse_range(host, i),
        None => match addr::parse_ipv4(text::trim(host)) {
            Some(ip) => Some(HostMatcher::Ipv4(ip)),
            None => {
                let domain = normalize_domain(host);
                if domain.len() == 0 {
                    None
                } else {
                    Some(HostMatcher::Domain(text::text_of(domain.as_slice())))
                }
            },
        },
    }
}

// ---------------------------------------------------------------------------
// Extra addresses
// ---------------------------------------------------------------------------

/// How many addresses share a prefix of the given length.
pub open spec fn block_size(prefix: int) -> int
    decreases 32 - prefix,
{
    if prefix >= 32 {
        1
    } else {
        2 * block_size(prefix + 1)
    }
}

/// The addresses that share their first `prefix` bits with the given one.
pub open spec fn network_of(ip: Ipv4Addr, prefix: int) -> MatcherView {
    let size = block_size(prefix);
    let first = ip.bits as int / size * size;
    MatcherView::Ipv4Range(first as u32, (first + size - 1) as u32)
}

/// The addresses that an entry of the user's list stands for: a range `a~b`, a network
/// `a/prefix` or one address.
pub open spec fn extra_of(raw: Seq<char>) -> Option<MatcherView> {
    let t = text::trimmed(raw);
    match text::first_of(t, '~') {
        Some(i) => range_text(t, i),
        None => match text::first_of(t, '/') {
            Some(i) => match (
                addr::ipv4_text(text::trimmed(t.take(i))),
                addr::plain_number(text::trimmed(t.skip(i + 1)), 32),
            ) {
                (Some(ip), Some(prefix)) => Some(network_of(ip, prefix)),
                _ => None,
            },
            None => match addr::ipv4_text(t) {
                Some(ip) => Some(MatcherView::Ipv4(ip)),
                None => None,
            },
        },
    }
}

/// The matchers of the entries that stand for addresses; other entries are left out.
pub open spec fn extras_of(raw: Seq<Seq<char>>) -> Seq<MatcherView>
    decreases raw.len(),
{
    if raw.len() == 0 {
        Seq::empty()
    } else {
        let before = extras_of(raw.drop_last());
        match extra_of(raw.last()) {
            Some(m) => before.push(m),
            None => before,
        }
    }
}

/// How many prefixes of the given length there are.
spec fn block_count(prefix: int) -> int
    decreases prefix,
{
    if prefix <= 0 {
        1
    } else {
        2 * block_count(prefix - 1)
    }
}

proof fn lemma_blocks_fill(prefix: int)
    requires
        0 <= prefix <= 32,
    ensures
        block_count(prefix) >= 1,
        block_size(prefix) * block_count(prefix) == 0x1_0000_0000,
    decreases prefix,
{
    if prefix == 0 {
        assert(block_size(0) == 0x1_0000_0000) by {
            reveal_with_fuel(block_size, 34);
        }
    } else {
        lemma_blocks_fill(prefix - 1);
        let size = block_size(prefix);
        let count = block_count(prefix - 1);
        assert((2 * size) * count == size * (2 * count)) by (nonlinear_arith);
    }
}

proof fn lemma_block_size(prefix: int)
    requires
        0 <= prefix <= 32,
    ensures
        1 <= block_size(prefix) <= 0x1_0000_0000,
        0x1_0000_0000int % block_size(prefix) == 0,
{
    lemma_blocks_fill(prefix);
    let size = block_size(prefix);
    let count = block_count(prefix);
    assert(1 <= size <= 0x1_0000_0000) by (nonlinear_arith)
        requires
            size * count == 0x1_0000_0000,
            count >= 1,
    ;
    assert(size * count == count * size) by (nonlinear_arith);
    vstd::arithmetic::div_mod::lemma_mod_multiples_basic(count, size);
}

fn compute_block_size(prefix: u64) -> (r: u64)
    requires
        prefix <= 32,
    ensures
        r == block_size(prefix as int),
        1 <= r <= 0x1_0000_0000,
    decreases 32 - prefix,
{
    proof {
        lemma_block_size(prefix as int);
    }
    if prefix >= 32 {
        1
    } else {
        let half = compute_block_size(prefix + 1);
        2 * half
    }
}

proof fn lemma_network_fits(bits: int, size: int)
    requires
        0 <= bits < 0x1_0000_0000,
        1 <= size <= 0x1_0000_0000,
        0x1_0000_0000int % size == 0,
    ensures
        0 <= bits / size * size <= bits,
        bits < bits / size * size + size <= 0x1_0000_0000,
{
    let q = bits / size;
    let n = 0x1_0000_0000int / size;
    vstd::arithmetic::div_mod::lemma_fundamental_div_mod(bits, size);
    vstd::arithmetic::div_mod::lemma_fundamental_div_mod(0x1_0000_0000, size);
    vstd::arithmetic::div_mod::lemma_mod_bound(bits, size);
    assert(q * size == size * q) by (nonlinear_arith);
    assert(q >= 0) by (nonlinear_arith)
        requires
            bits >= 0,
            size >= 1,
            q == bits / size,
    ;
    assert(q * size >= 0) by (nonlinear_arith)
        requires
            q >= 0,
            size >= 1,
    ;
    assert(q < n) by (nonlinear_arith)
        requires
            size * q <= bits,
            bits < 0x1_0000_0000,
            0x1_0000_0000 == size * n,
            size >= 1,
    ;
    assert(q * size + size <= n * size) by (nonlinear_arith)
        requires
            q + 1 <= n,
            size >= 1,
    ;
    assert(n * size == size * n) by (nonlinear_arith);
}

/// The addresses that an entry of the user's list stands for.
pub fn parse_extra_ip(raw: &str) -> (r: Option<HostMatcher>)
    ensures
        text::shown(r) == extra_of(raw@),
{
    let cs = text::chars_of(raw);
    let t = text::trim(cs.as_slice());
    match text::find(t, '~') {
        Some(i) => parse_range(t, i),
        None => match text::find(t, '/') {
            Some(i) => {
                let ip = addr::parse_ipv4(text::trim(text::take(t, i)));
                let prefix = addr::parse_plain(text::trim(text::behind(t, i)), 32);
                match (ip, prefix) {
                    (Some(ip), Some(prefix)) => {
                        let size = compute_block_size(prefix);
                        proof {
                            lemma_block_size(prefix as int);
                            lemma_network_fits(ip.bits as int, size as int);
                        }
                        let first: u64 = (ip.bits as u64) / size * size;
                        Some(HostMatcher::Ipv4Range(first as u32, (first + size - 1) as u32))
                    },
                    _ => None,
                }
            },
            None => match addr::parse_ipv4(t) {
                Some(ip) => Some(HostMatcher::Ipv4(ip)),
                None => None,
            },
        },
    }
}

// ---------------------------------------------------------------------------
// The compiled table
// ---------------------------------------------------------------------------

/// A rule in the form in which it is matched.
#[derive(Debug, Clone)]
pub struct CompiledRule {
    pub rc_id: i32,
    pub rc_name: String,
    pub matcher: HostMatcher,
    pub port: PortRange,
}

/// A compiled rule as plain values.
#[verifier::ext_equal]
pub ghost struct CompiledView {
    pub rc_id: i32,
    pub rc_name: Seq<char>,
    pub matcher: MatcherView,
    pub port: PortRange,
}

impl View for CompiledRule {
    type V = CompiledView;

    open spec fn view(&self) -> CompiledView {
        CompiledView {
            rc_id: self.rc_id,
            rc_name: self.rc_name@,
            matcher: self.matcher@,
            port: self.port,
        }
    }
}

/// The address of a host under a resource.
#[derive(Debug, Clone)]
pub struct DnsEntry {
    pub rc_id: i32,
    pub host: String,
    pub ip: Ipv4Addr,
}

/// An entry as plain values.
#[verifier::ext_equal]
pub ghost struct EntryView {
    pub rc_id: i32,
    pub host: Seq<char>,
    pub ip: Ipv4Addr,
}

impl View for DnsEntry {
    type V = EntryView;

    open spec fn view(&self) -> EntryView {
        EntryView { rc_id: self.rc_id, host: self.host@, ip: self.ip }
    }
}

/// The table in the form in which targets are matched against it.
#[derive(Debug, Clone)]
pub struct RouteMatcher {
    pub rules: Vec<CompiledRule>,
    pub proto1_rules: Vec<CompiledRule>,
    pub dns_map: Vec<DnsEntry>,
    pub dns_servers: Vec<String>,
    pub dns_records: usize,
    pub extra: Vec<HostMatcher>,
}

/// A compiled table as plain values.
#[verifier::ext_equal]
pub ghost struct RouterView {
    pub rules: Seq<CompiledView>,
    pub proto1_rules: Seq<CompiledView>,
    pub dns_map: Seq<EntryView>,
    pub dns_servers: Seq<Seq<char>>,
    pub dns_records: nat,
    pub extra: Seq<MatcherView>,
}

impl View for RouteMatcher {
    type V = RouterView;

    open spec fn view(&self) -> RouterView {
        RouterView {
            rules: text::views(self.rules@),
            proto1_rules: text::views(self.proto1_rules@),
            dns_map: text::views(self.dns_map@),
            dns_servers: text::views(self.dns_servers@),
            dns_records: self.dns_records as nat,
            extra: text::views(self.extra@),
        }
    }
}

/// A rule in the form in which it is matched; a rule whose host names nothing has none.
pub open spec fn compiled(rule: route_table::RuleView) -> Option<CompiledView> {
    match matcher_of(rule.host) {
        Some(matcher) => Some(
            CompiledView { rc_id: rule.rc_id, rc_name: rule.name, matcher, port: rule.port },
        ),
        None => None,
    }
}

/// `s` with `x` behind it, if `x` is not in it yet.
pub open spec fn push_new<T>(s: Seq<T>, x: T) -> Seq<T> {
    if s.contains(x) {
        s
    } else {
        s.push(x)
    }
}

/// The compiled rules of one class, each once, in the order of the table. Rules of protocol
/// class one are kept apart from all the others.
pub open spec fn compiled_rules(rules: Seq<route_table::RuleView>, proto1: bool) -> Seq<
    CompiledView,
>
    decreases rules.len(),
{
    if rules.len() == 0 {
        Seq::empty()
    } else {
        let before = compiled_rules(rules.drop_last(), proto1);
        if (rules.last().proto == 1) == proto1 {
            match compiled(rules.last()) {
                Some(c) => push_new(before, c),
                None => before,
            }
        } else {
            before
        }
    }
}

/// The entry that a record stands for, if its host and address are usable.
pub open spec fn entry_of(rec: route_table::RecordView) -> Option<EntryView> {
    match addr::ipv4_text(text::trimmed(rec.ip)) {
        Some(ip) => if domain_of(rec.host).len() == 0 {
            None
        } else {
            Some(EntryView { rc_id: rec.rc_id, host: domain_of(rec.host), ip })
        },
        None => None,
    }
}

/// The entries of the usable records, each once, in the order of the table.
pub open spec fn entries_of(records: Seq<route_table::RecordView>) -> Seq<EntryView>
    decreases records.len(),
{
    if records.len() == 0 {
        Seq::empty()
    } else {
        let before = entries_of(records.drop_last());
        match entry_of(records.last()) {
            Some(e) => push_new(before, e),
            None => before,
        }
    }
}

/// Some item of the list is the given one but for the case of its letters.
pub open spec fn listed(servers: Seq<Seq<char>>, server: Seq<char>) -> bool {
    exists|i: int|
        0 <= i < servers.len() && text::lowered(#[trigger] servers[i]) == text::lowered(server)
}

/// The servers of a list, trimmed, each once whatever the case of its letters, blank ones
/// left out.
pub open spec fn distinct_servers(servers: Seq<Seq<char>>) -> Seq<Seq<char>>
    decreases servers.len(),
{
    if servers.len() == 0 {
        Seq::empty()
    } else {
        let before = distinct_servers(servers.drop_last());
        let token = text::trimmed(servers.last());
        if token.len() == 0 || listed(before, token) {
            before
        } else {
            before.push(token)
        }
    }
}

/// What a table is compiled to, together with the user's extra entries.
pub open spec fn compiled_table(t: route_table::TableView, extra: Seq<Seq<char>>) -> RouterView {
    RouterView {
        rules: compiled_rules(t.rules, false),
        proto1_rules: compiled_rules(t.rules, true),
        dns_map: entries_of(t.dns_records),
        dns_servers: distinct_servers(t.dns_servers),
        dns_records: entries_of(t.dns_records).len(),
        extra: extras_of(extra),
    }
}

/// The rule in the form in which it is matched; a rule whose host names nothing has none.
pub fn compile_rule(rule: &RouteRule) -> (r: Option<CompiledRule>)
    ensures
        text::shown(r) == compiled(rule@),
{
    let host = text::chars_of(rule.host.as_str());
    match parse_matcher(host.as_slice()) {
        Some(matcher) => Some(
            CompiledRule {
                rc_id: rule.rc_id,
                rc_name: rule.name.clone(),
                matcher,
                port: rule.port,
            },
        ),
        None => None,
    }
}

fn same_matcher(a: &HostMatcher, b: &HostMatcher) -> (r: bool)
    ensures
        r == (a@ == b@),
{
    match (a, b) {
        (HostMatcher::Domain(x), HostMatcher::Domain(y)) => *x == *y,
        (HostMatcher::Ipv4(x), HostMatcher::Ipv4(y)) => *x == *y,
        (HostMatcher::Ipv4Range(p, q), HostMatcher::Ipv4Range(x, y)) => *p == *x && *q == *y,
        _ => false,
    }
}

fn same_rule(a: &CompiledRule, b: &CompiledRule) -> (r: bool)
    ensures
        r == (a@ == b@),
{
    a.rc_id == b.rc_id && a.rc_name == b.rc_name && same_matcher(&a.matcher, &b.matcher) && a.port
        == b.port
}

fn push_new_rule(rules: &mut Vec<CompiledRule>, rule: CompiledRule)
    ensures
        text::views(final(rules)@) == push_new(text::views(old(rules)@), rule@),
{
    let ghost have = text::views(rules@);
    for i in 0..rules.len()
        invariant
            have == text::views(rules@),
            rules@ == old(rules)@,
            forall|j: int| 0 <= j < i ==> have[j] != rule@,
    {
        assert(have[i as int] == rules@[i as int]@);
        if same_rule(&rules[i], &rule) {
            assert(have.contains(rule@));
            return ;
        }
    }
    proof {
        text::lemma_views_push(rules@, rule);
    }
    rules.push(rule);
}

fn compile_rules(raw_rules: &Vec<RouteRule>) -> (r: (Vec<CompiledRule>, Vec<CompiledRule>))
    ensures
        text::views(r.0@) == compiled_rules(text::views(raw_rules@), false),
        text::views(r.1@) == compiled_rules(text::views(raw_rules@), true),
{
    let ghost all = text::views(raw_rules@);
    let mut rules: Vec<CompiledRule> = Vec::new();
    let mut proto1_rules: Vec<CompiledRule> = Vec::new();
    assert(text::views(rules@) =~= compiled_rules(all.take(0), false));
    assert(text::views(proto1_rules@) =~= compiled_rules(all.take(0), true));
    for i in 0..raw_rules.len()
        invariant
            all == text::views(raw_rules@),
            text::views(rules@) == compiled_rules(all.take(i as int), false),
            text::views(proto1_rules@) == compiled_rules(all.take(i as int), true),
    {
        assert(all.take(i + 1).drop_last() == all.take(i as int));
        assert(all.take(i + 1).last() == raw_rules@[i as int]@);
        match compile_rule(&raw_rules[i]) {
            Some(c) => {
                if raw_rules[i].proto == 1 {
                    push_new_rule(&mut proto1_rules, c);
                } else {
                    push_new_rule(&mut rules, c);
                }
            },
            None => {},
        }
    }
    assert(all.take(all.len() as int) == all);
    (rules, proto1_rules)
}

fn parse_entry(rec: &DnsRecord) -> (r: Option<DnsEntry>)
    ensures
        text::shown(r) == entry_of(rec@),
{
    let host_chars = text::chars_of(rec.host.as_str());
    let host = normalize_domain(host_chars.as_slice());
    let ip_chars = text::chars_of(rec.ip.as_str());
    match addr::parse_ipv4(text::trim(ip_chars.as_slice())) {
        Some(ip) => if host.len() == 0 {
            None
        } else {
            Some(DnsEntry { rc_id: rec.rc_id, host: text::text_of(host.as_slice()), ip })
        },
        None => None,
    }
}

fn build_dns_map(records: &Vec<DnsRecord>) -> (r: Vec<DnsEntry>)
    ensures
        text::views(r@) == entries_of(text::views(records@)),
{
    let ghost all = text::views(records@);
    let mut out: Vec<DnsEntry> = Vec::new();
    assert(text::views(out@) =~= entries_of(all.take(0)));
    for i in 0..records.len()
        invariant
            all == text::views(records@),
            text::views(out@) == entries_of(all.take(i as int)),
    {
        assert(all.take(i + 1).drop_last() == all.take(i as int));
        assert(all.take(i + 1).last() == records@[i as int]@);
        match parse_entry(&records[i]) {
            Some(e) => {
                push_new_entry(&mut out, e);
            },
            None => {},
        }
    }
    assert(all.take(all.len() as int) == all);
    out
}

fn push_new_entry(entries: &mut Vec<DnsEntry>, entry: DnsEntry)
    ensures
        text::views(final(entries)@) == push_new(text::views(old(entries)@), entry@),
{
    let ghost have = text::views(entries@);
    for i in 0..entries.len()
        invariant
            have == text::views(entries@),
            entries@ == old(entries)@,
            forall|j: int| 0 <= j < i ==> have[j] != entry@,
    {
        assert(have[i as int] == entries@[i as int]@);
        let e = &entries[i];
        if e.rc_id == entry.rc_id && e.host == entry.host && e.ip == entry.ip {
            assert(have.contains(entry@));
            return ;
        }
    }
    proof {
        text::lemma_views_push(entries@, entry);
    }
    entries.push(entry);
}

fn is_listed(servers: &Vec<String>, server: &[char]) -> (r: bool)
    ensures
        r == listed(text::views(servers@), server@),
{
    let ghost have = text::views(servers@);
    let wanted = text::lower(server);
    for i in 0..servers.len()
        invariant
            have == text::views(servers@),
            wanted@ == text::lowered(server@),
            forall|j: int|
                0 <= j < i ==> text::lowered(#[trigger] have[j]) != text::lowered(server@),
    {
        assert(have[i as int] == servers@[i as int]@);
        let one = text::chars_of(servers[i].as_str());
        let small = text::lower(one.as_slice());
        if text::same(small.as_slice(), wanted.as_slice()) {
            return true;
        }
    }
    false
}

/// The servers without blank ones, white space round them, and repetitions in whatever case.
pub fn normalize_dns_servers(servers: &Vec<String>) -> (r: Vec<String>)
    ensures
        text::views(r@) == distinct_servers(text::views(servers@)),
{
    let ghost all = text::views(servers@);
    let mut out: Vec<String> = Vec::new();
    assert(text::views(out@) =~= distinct_servers(all.take(0)));
    for i in 0..servers.len()
        invariant
            all == text::views(servers@),
            text::views(out@) == distinct_servers(all.take(i as int)),
    {
        assert(all.take(i + 1).drop_last() == all.take(i as int));
        assert(all.take(i + 1).last() == servers@[i as int]@);
        let raw = text::chars_of(servers[i].as_str());
        let token = text::trim(raw.as_slice());
        if token.len() > 0 && !is_listed(&out, token) {
            let token_text = text::text_of(token);
            proof {
                text::lemma_views_push(out@, token_text);
            }
            out.push(token_text);
        }
    }
    assert(all.take(all.len() as int) == all);
    out
}

fn parse_extras(raw: &Vec<String>) -> (r: Vec<HostMatcher>)
    ensures
        text::views(r@) == extras_of(text::views(raw@)),
{
    let ghost all = text::views(raw@);
    let mut out: Vec<HostMatcher> = Vec::new();
    assert(text::views(out@) =~= extras_of(all.take(0)));
    for i in 0..raw.len()
        invariant
            all == text::views(raw@),
            text::views(out@) == extras_of(all.take(i as int)),
    {
        assert(all.take(i + 1).drop_last() == all.take(i as int));
        assert(all.take(i + 1).last() == raw@[i as int]@);
        match parse_extra_ip(raw[i].as_str()) {
            Some(m) => {
                proof {
                    text::lemma_views_push(out@, m);
                }
                out.push(m);
            },
            None => {},
        }
    }
    assert(all.take(all.len() as int) == all);
    out
}

// ---------------------------------------------------------------------------
// Planning
// ---------------------------------------------------------------------------

/// The rule is for this target and port.
pub open spec fn rule_hits(rule: CompiledView, t: TargetView, port: u16) -> bool {
    port_matches(rule.port, port) && host_matches(rule.matcher, t)
}

/// The first rule that is for this target and port.
pub open spec fn first_hit(rules: Seq<CompiledView>, t: TargetView, port: u16) -> Option<
    CompiledView,
>
    decreases rules.len(),
{
    if rules.len() == 0 {
        None
    } else if rule_hits(rules[0], t, port) {
        Some(rules[0])
    } else {
        first_hit(rules.skip(1), t, port)
    }
}

/// The first address of a host under a resource.
pub open spec fn first_ip(entries: Seq<EntryView>, rc_id: i32, host: Seq<char>) -> Option<Ipv4Addr>
    decreases entries.len(),
{
    if entries.len() == 0 {
        None
    } else if entries[0].rc_id == rc_id && entries[0].host == host {
        Some(entries[0].ip)
    } else {
        first_ip(entries.skip(1), rc_id, host)
    }
}

/// The addresses of a host under a resource, in their order.
pub open spec fn host_ips(entries: Seq<EntryView>, rc_id: i32, host: Seq<char>) -> Seq<Ipv4Addr>
    decreases entries.len(),
{
    if entries.len() == 0 {
        Seq::empty()
    } else {
        let before = host_ips(entries.drop_last(), rc_id, host);
        if entries.last().rc_id == rc_id && entries.last().host == host {
            before.push(entries.last().ip)
        } else {
            before
        }
    }
}

/// Some of the extra matchers is for this target.
pub open spec fn extra_hits(extra: Seq<MatcherView>, t: TargetView) -> bool {
    exists|i: int| 0 <= i < extra.len() && host_matches(#[trigger] extra[i], t)
}

/// A plan that waits for a name to be looked up.
#[derive(Debug, Clone)]
pub struct PendingLookup {
    pub rc_id: i32,
    pub rc_name: String,
    pub domain: String,
    pub host: String,
    pub port: u16,
}

/// A plan, or what has to be looked up first.
#[derive(Debug, Clone)]
pub enum PlanStep {
    Ready(RoutePlan),
    Lookup(PendingLookup),
}

/// A waiting plan as plain values.
#[verifier::ext_equal]
pub ghost struct PendingView {
    pub rc_id: i32,
    pub rc_name: Seq<char>,
    pub domain: Seq<char>,
    pub host: Seq<char>,
    pub port: u16,
}

/// A step as plain values.
#[verifier::ext_equal]
pub ghost enum PlanStepView {
    Ready(PlanView),
    Lookup(PendingView),
}

impl View for PendingLookup {
    type V = PendingView;

    open spec fn view(&self) -> PendingView {
        PendingView {
            rc_id: self.rc_id,
            rc_name: self.rc_name@,
            domain: self.domain@,
            host: self.host@,
            port: self.port,
        }
    }
}

impl View for PlanStep {
    type V = PlanStepView;

    open spec fn view(&self) -> PlanStepView {
        match *self {
            PlanStep::Ready(p) => PlanStepView::Ready(p@),
            PlanStep::Lookup(l) => PlanStepView::Lookup(l@),
        }
    }
}

/// A fallback plan for a host that is not of protocol class one.
pub open spec fn plain_fallback(host: Seq<char>, port: u16, reason: Seq<char>) -> PlanView {
    PlanView::Fallback { target: with_port(host, port), reason, reserved_proto1: false }
}

/// A remote plan that dials an address.
pub open spec fn remote_to(
    ip: Ipv4Addr,
    port: u16,
    rc_id: i32,
    rc_name: Seq<char>,
    source: RouteSourceView,
) -> PlanView {
    PlanView::Remote { dial: with_port(ip.text(), port), rc_id, rc_name, source }
}

impl RouterView {
    /// The plan for a target that a rule is for.
    pub open spec fn plan_for_rule(self, rule: CompiledView, host: Seq<char>, port: u16)
        -> PlanStepView {
        match target_of(host) {
            TargetView::Ipv4(ip) => PlanStepView::Ready(
                remote_to(ip, port, rule.rc_id, rule.rc_name, RouteSourceView::RuleIp),
            ),
            TargetView::Domain(domain) => match first_ip(self.dns_map, rule.rc_id, domain) {
                Some(ip) => PlanStepView::Ready(
                    remote_to(ip, port, rule.rc_id, rule.rc_name, RouteSourceView::DnsMap),
                ),
                None => if self.dns_servers.len() == 0 {
                    PlanStepView::Ready(
                        plain_fallback(
                            host,
                            port,
                            "hostname matched rc_id="@ + text::decimal(rule.rc_id as int)
                                + " but dns map is missing and dnsserver is unavailable"@,
                        ),
                    )
                } else {
                    PlanStepView::Lookup(
                        PendingView {
                            rc_id: rule.rc_id,
                            rc_name: rule.rc_name,
                            domain,
                            host,
                            port,
                        },
                    )
                },
            },
        }
    }

    /// The plan for a target that no rule is for, but perhaps one of protocol class one.
    pub open spec fn plan_without_rule(self, host: Seq<char>, port: u16) -> PlanView {
        match first_hit(self.proto1_rules, target_of(host), port) {
            Some(rule) => PlanView::Fallback {
                target: with_port(host, port),
                reason: "matched reserved proto=1 rule rc_id="@ + text::decimal(rule.rc_id as int)
                    + " name="@ + rule.rc_name
                    + "; proto=1 is separated from normal routing and forced to fallback"@,
                reserved_proto1: true,
            },
            None => plain_fallback(host, port, "no whitelist rule matched"@),
        }
    }

    /// Where a target is sent. The user's extra addresses come first, then the rules of the
    /// table in their order, then those of protocol class one.
    pub open spec fn plan_of(self, host: Seq<char>, port: u16) -> PlanStepView {
        let target = target_of(host);
        if extra_hits(self.extra, target) {
            PlanStepView::Ready(
                remote_to(
                    target->Ipv4_0,
                    port,
                    0,
                    "--extra"@,
                    RouteSourceView::ExtraIp,
                ),
            )
        } else {
            match first_hit(self.rules, target, port) {
                Some(rule) => self.plan_for_rule(rule, host, port),
                None => PlanStepView::Ready(self.plan_without_rule(host, port)),
            }
        }
    }

    /// The lookup that a plan waits for, when it begins.
    pub open spec fn lookup_of(
        self,
        pending: PendingView,
        cache: Map<(i32, Seq<char>), (Ipv4Addr, u64)>,
        now: u64,
    ) -> dns_resolver::RunView {
        dns_resolver::begun(cache, now, pending.rc_id, pending.domain, self.dns_servers)
    }
}

fn find_rule<'a>(rules: &'a Vec<CompiledRule>, target: &TargetKind, port: u16) -> (r: Option<
    &'a CompiledRule,
>)
    ensures
        text::shown(r) == first_hit(text::views(rules@), target@, port),
{
    let ghost all = text::views(rules@);
    assert(all.skip(0) == all);
    for i in 0..rules.len()
        invariant
            all == text::views(rules@),
            first_hit(all, target@, port) == first_hit(all.skip(i as int), target@, port),
    {
        assert(all.skip(i as int).skip(1) == all.skip(i + 1));
        assert(all.skip(i as int)[0] == rules@[i as int]@);
        let rule = &rules[i];
        if in_range(rule.port, port) && is_host(&rule.matcher, target) {
            return Some(rule);
        }
    }
    None
}

fn find_ip(entries: &Vec<DnsEntry>, rc_id: i32, host: &String) -> (r: Option<Ipv4Addr>)
    ensures
        r == first_ip(text::views(entries@), rc_id, host@),
{
    let ghost all = text::views(entries@);
    assert(all.skip(0) == all);
    for i in 0..entries.len()
        invariant
            all == text::views(entries@),
            first_ip(all, rc_id, host@) == first_ip(all.skip(i as int), rc_id, host@),
    {
        assert(all.skip(i as int).skip(1) == all.skip(i + 1));
        assert(all.skip(i as int)[0] == entries@[i as int]@);
        if entries[i].rc_id == rc_id && entries[i].host == *host {
            return Some(entries[i].ip);
        }
    }
    None
}

fn hits_extra(extra: &Vec<HostMatcher>, target: &TargetKind) -> (r: bool)
    ensures
        r == extra_hits(text::views(extra@), target@),
{
    let ghost all = text::views(extra@);
    for i in 0..extra.len()
        invariant
            all == text::views(extra@),
            forall|j: int| 0 <= j < i ==> !host_matches(#[trigger] all[j], target@),
    {
        assert(all[i as int] == extra@[i as int]@);
        if is_host(&extra[i], target) {
            return true;
        }
    }
    false
}

fn remote(ip: Ipv4Addr, port: u16, rc_id: i32, rc_name: String, source: RouteSource) -> (r:
    RoutePlan)
    ensures
        r@ == remote_to(ip, port, rc_id, rc_name@, source@),
{
    let shown = ip.to_string();
    RoutePlan::Remote { dial: join_port(shown.as_str(), port), rc_id, rc_name, source }
}

fn fallback(host: &str, port: u16, reason: String) -> (r: RoutePlan)
    ensures
        r@ == plain_fallback(host@, port, reason@),
{
    RoutePlan::Fallback { target: join_port(host, port), reason, reserved_proto1: false }
}

impl RouteMatcher {
    /// The record count is the number of entries, and no extra matcher is for a domain.
    pub open spec fn wf(self) -> bool {
        &&& self.dns_records == self.dns_map@.len()
        &&& forall|i: int|
            0 <= i < self.extra@.len() ==> !((#[trigger] self.extra@[i])@ is Domain)
    }

    /// Compiles a table.
    pub fn from_table(table: RouteTable) -> (r: EcResult<Self>)
        ensures
            r matches Ok(m) && m@ == compiled_table(table@, Seq::empty()) && m.wf(),
    {
        let none: Vec<String> = Vec::new();
        assert(text::views(none@) =~= Seq::<Seq<char>>::empty());
        RouteMatcher::from_table_with_extra(table, &none)
    }

    /// Compiles a table together with the user's extra entries.
    pub fn from_table_with_extra(table: RouteTable, extra_ips: &Vec<String>) -> (r: EcResult<Self>)
        ensures
            r matches Ok(m) && m@ == compiled_table(table@, text::views(extra_ips@)) && m.wf(),
    {
        let (rules, proto1_rules) = compile_rules(&table.rules);
        let dns_map = build_dns_map(&table.dns_records);
        let dns_servers = normalize_dns_servers(&table.dns_servers);
        let extra = parse_extras(extra_ips);
        let dns_records: usize = dns_map.len();
        proof {
            lemma_extras_are_addresses(text::views(extra_ips@));
            assert forall|i: int| 0 <= i < extra@.len() implies !((#[trigger] extra@[i])@
                is Domain) by {
                assert(text::views(extra@)[i] == extra@[i]@);
            }
        }
        Ok(RouteMatcher { rules, proto1_rules, dns_map, dns_servers, dns_records, extra })
    }

    /// The addresses of a host under a resource, in their order.
    pub fn dns_ips(&self, rc_id: i32, host: &str) -> (r: Vec<Ipv4Addr>)
        ensures
            r@ == host_ips(self@.dns_map, rc_id, host@),
    {
        let ghost all = self@.dns_map;
        let wanted = host.to_owned();
        let mut out: Vec<Ipv4Addr> = Vec::new();
        assert(out@ =~= host_ips(all.take(0), rc_id, host@));
        for i in 0..self.dns_map.len()
            invariant
                all == text::views(self.dns_map@),
                wanted@ == host@,
                out@ == host_ips(all.take(i as int), rc_id, host@),
        {
            assert(all.take(i + 1).drop_last() == all.take(i as int));
            assert(all.take(i + 1).last() == self.dns_map@[i as int]@);
            if self.dns_map[i].rc_id == rc_id && self.dns_map[i].host == wanted {
                out.push(self.dns_map[i].ip);
            }
        }
        assert(all.take(all.len() as int) == all);
        out
    }

    /// Begins the lookup that a plan waits for: its domain, under its resource, at the servers
    /// of the table.
    pub fn begin_lookup(&self, pending: &PendingLookup, cache: &mut DnsCache, now: u64) -> (r: (
        Lookup,
        LookupStep,
    ))
        requires
            old(cache).wf(),
        ensures
            final(cache).wf(),
            dns_resolver::run_view(r.0, r.1, *final(cache)) == dns_resolver::begun(
                old(cache)@,
                now,
                pending@.rc_id,
                pending@.domain,
                self@.dns_servers,
            ),
            r.0@.servers == dns_resolver::usable_servers(self@.dns_servers),
            dns_resolver::run_view(r.0, r.1, *final(cache)) == self@.lookup_of(
                pending@,
                old(cache)@,
                now,
            ),
    {
        dns_resolver::resolve_first_ipv4(
            cache,
            now,
            pending.rc_id,
            pending.domain.as_str(),
            &self.dns_servers,
        )
    }

    /// Where a target is sent, or what has to be looked up first.
    pub fn plan(&self, host: &str, port: u16) -> (r: PlanStep)
        requires
            self.wf(),
        ensures
            r@ == self@.plan_of(host@, port),
    {
        let target = parse_target(host);
        if hits_extra(&self.extra, &target) {
            match &target {
                TargetKind::Ipv4(ip) => {
                    return PlanStep::Ready(
                        remote(*ip, port, 0, "--extra".to_owned(), RouteSource::ExtraIp),
                    );
                },
                TargetKind::Domain(_) => {
                    proof {
                        let i = choose|i: int|
                            0 <= i < self@.extra.len() && host_matches(
                                #[trigger] self@.extra[i],
                                target@,
                            );
                        assert(self@.extra[i] == self.extra@[i]@);
                        assert(false);
                    }
                },
            }
        }
        match find_rule(&self.rules, &target, port) {
            Some(rule) => match &target {
                TargetKind::Ipv4(ip) => PlanStep::Ready(
                    remote(*ip, port, rule.rc_id, rule.rc_name.clone(), RouteSource::RuleIp),
                ),
                TargetKind::Domain(domain) => {
                    match find_ip(&self.dns_map, rule.rc_id, domain) {
                        Some(ip) => PlanStep::Ready(
                            remote(ip, port, rule.rc_id, rule.rc_name.clone(), RouteSource::DnsMap),
                        ),
                        None => if self.dns_servers.len() == 0 {
                            let id = text::decimal_i32(rule.rc_id);
                            let reason = "hostname matched rc_id=".to_owned().concat(
                                id.as_str(),
                            ).concat(" but dns map is missing and dnsserver is unavailable");
                            PlanStep::Ready(fallback(host, port, reason))
                        } else {
                            PlanStep::Lookup(
                                PendingLookup {
                                    rc_id: rule.rc_id,
                                    rc_name: rule.rc_name.clone(),
                                    domain: domain.clone(),
                                    host: host.to_owned(),
                                    port,
                                },
                            )
                        },
                    }
                },
            },
            None => match find_rule(&self.proto1_rules, &target, port) {
                Some(rule) => {
                    let id = text::decimal_i32(rule.rc_id);
                    let reason = "matched reserved proto=1 rule rc_id=".to_owned().concat(
                        id.as_str(),
                    ).concat(" name=").concat(rule.rc_name.as_str()).concat(
                        "; proto=1 is separated from normal routing and forced to fallback",
                    );
                    PlanStep::Ready(
                        RoutePlan::Fallback {
                            target: join_port(host, port),
                            reason,
                            reserved_proto1: true,
                        },
                    )
                },
                None => PlanStep::Ready(
                    fallback(host, port, "no whitelist rule matched".to_owned()),
                ),
            },
        }
    }
}

proof fn lemma_extras_are_addresses(raw: Seq<Seq<char>>)
    ensures
        forall|i: int|
            0 <= i < extras_of(raw).len() ==> !((#[trigger] extras_of(raw)[i]) is Domain),
    decreases raw.len(),
{
    if raw.len() > 0 {
        lemma_extras_are_addresses(raw.drop_last());
    }
}

/// Where the address of a lookup came from, as the source of a plan.
pub open spec fn lookup_source(s: dns_resolver::SourceView) -> RouteSourceView {
    match s {
        dns_resolver::SourceView::Cache => RouteSourceView::DnsServerCache,
        dns_resolver::SourceView::Server(a) => RouteSourceView::DnsServerQuery(a),
    }
}

impl PendingView {
    /// The plan once the lookup has come to its end.
    pub open spec fn finished(self, resolved: Result<dns_resolver::ResolvedView, EcErrorView>)
        -> PlanView {
        match resolved {
            Ok(r) => remote_to(r.ip, self.port, self.rc_id, self.rc_name, lookup_source(r.source)),
            Err(e) => plain_fallback(
                self.host,
                self.port,
                "hostname matched rc_id="@ + text::decimal(self.rc_id as int)
                    + " but dns map is missing and dnsserver lookup failed: "@ + error::concise(
                    e.text(),
                ),
            ),
        }
    }
}

impl PendingLookup {
    /// The plan once the lookup has come to its end.
    pub fn finish(self, resolved: EcResult<ResolveResult>) -> (r: RoutePlan)
        ensures
            r@ == self@.finished(error::shown(resolved)),
    {
        match resolved {
            Ok(found) => {
                let source = match found.source {
                    ResolveSource::Cache => RouteSource::DnsServerCache,
                    ResolveSource::Server(a) => RouteSource::DnsServerQuery(a),
                };
                remote(found.ip, self.port, self.rc_id, self.rc_name, source)
            },
            Err(e) => {
                let id = text::decimal_i32(self.rc_id);
                let why = error::concise_error(&e);
                let reason = "hostname matched rc_id=".to_owned().concat(id.as_str()).concat(
                    " but dns map is missing and dnsserver lookup failed: ",
                ).concat(why.as_str());
                fallback(self.host.as_str(), self.port, reason)
            },
        }
    }
}

// ---------------------------------------------------------------------------
// The router
// ---------------------------------------------------------------------------

/// What targets are planned by.
#[derive(Debug, Clone)]
pub enum Router {
    /// By nothing yet.
    NotInitialized,
    /// By a compiled table.
    Table(RouteMatcher),
    /// By no table: everything goes through the tunnel.
    TunnelFallback,
}

/// A router as plain values.
#[verifier::ext_equal]
pub ghost enum RouterState {
    NotInitialized,
    Table(RouterView),
    TunnelFallback,
}

impl View for Router {
    type V = RouterState;

    open spec fn view(&self) -> RouterState {
        match *self {
            Router::NotInitialized => RouterState::NotInitialized,
            Router::Table(m) => RouterState::Table(m@),
            Router::TunnelFallback => RouterState::TunnelFallback,
        }
    }
}

impl Router {
    /// The compiled table, where there is one, is well formed.
    pub open spec fn wf(self) -> bool {
        self matches Router::Table(m) ==> m.wf()
    }
}

impl RouterState {
    /// Where a target is sent.
    pub open spec fn plan_of(self, host: Seq<char>, port: u16) -> Result<
        PlanStepView,
        EcErrorView,
    > {
        match self {
            RouterState::NotInitialized => Err(
                EcErrorView::Runtime("route matcher is not initialized"@),
            ),
            RouterState::Table(m) => Ok(m.plan_of(host, port)),
            RouterState::TunnelFallback => Ok(
                PlanStepView::Ready(
                    PlanView::Remote {
                        dial: with_port(host, port),
                        rc_id: 0,
                        rc_name: "route-table-unavailable"@,
                        source: RouteSourceView::RouteTableUnavailable,
                    },
                ),
            ),
        }
    }
}

/// Makes a table and the user's extra entries what targets are planned by, and forgets the
/// addresses that were looked up before.
pub fn install_route_table(
    router: &mut Router,
    cache: &mut DnsCache,
    table: RouteTable,
    extra_ips: &Vec<String>,
) -> (r: EcResult<RouteInstallSummary>)
    ensures
        final(router).wf(),
        final(cache).wf(),
        final(cache)@ == Map::<(i32, Seq<char>), (Ipv4Addr, u64)>::empty(),
        ({
            let compiled = compiled_table(table@, text::views(extra_ips@));
            &&& final(router)@ == RouterState::Table(compiled)
            &&& r matches Ok(summary)
            &&& summary.rule_count == compiled.rules.len()
            &&& summary.dns_server_count == compiled.dns_servers.len()
            &&& summary.dns_record_count == compiled.dns_records
        }),
{
    let made = RouteMatcher::from_table_with_extra(table, extra_ips);
    cache.clear_cache();
    match made {
        Err(e) => {
            Err(e)
        },
        Ok(matcher) => {
            let summary = RouteInstallSummary {
                rule_count: matcher.rules.len(),
                dns_server_count: matcher.dns_servers.len(),
                dns_record_count: matcher.dns_records,
            };
            *router = Router::Table(matcher);
            Ok(summary)
        },
    }
}

/// Sends everything through the tunnel from now on.
pub fn install_tunnel_fallback(router: &mut Router, cache: &mut DnsCache)
    ensures
        final(router).wf(),
        final(router)@ == RouterState::TunnelFallback,
        final(cache).wf(),
        final(cache)@ == Map::<(i32, Seq<char>), (Ipv4Addr, u64)>::empty(),
{
    cache.clear_cache();
    *router = Router::TunnelFallback;
}

/// Where a target is sent, or what has to be looked up first.
pub fn plan_target(router: &Router, host: &str, port: u16) -> (r: EcResult<PlanStep>)
    requires
        router.wf(),
    ensures
        error::shown(r) == router@.plan_of(host@, port),
{
    match router {
        Router::NotInitialized => Err(
            EcError::Runtime("route matcher is not initialized".to_owned()),
        ),
        Router::Table(m) => Ok(m.plan(host, port)),
        Router::TunnelFallback => Ok(
            PlanStep::Ready(
                RoutePlan::Remote {
                    dial: join_port(host, port),
                    rc_id: 0,
                    rc_name: "route-table-unavailable".to_owned(),
                    source: RouteSource::RouteTableUnavailable,
                },
            ),
        ),
    }
}

// ---------------------------------------------------------------------------
// The table in words
// ---------------------------------------------------------------------------

/// A rule in one line.
pub open spec fn rule_line(r: route_table::RuleView) -> Seq<char> {
    "rule rc_id="@ + text::decimal(r.rc_id as int) + " proto="@ + text::decimal(r.proto as int)
        + " name="@ + r.name + " host="@ + r.host + " port="@ + text::decimal(r.port.start as int)
        + "~"@ + text::decimal(r.port.end as int) + "\n"@
}

/// A record in one line.
pub open spec fn record_line(r: route_table::RecordView) -> Seq<char> {
    "dns-record rc_id="@ + text::decimal(r.rc_id as int) + " host="@ + r.host + " ip="@ + r.ip
        + "\n"@
}

/// The rules, a line each.
pub open spec fn rule_lines(rules: Seq<route_table::RuleView>) -> Seq<char>
    decreases rules.len(),
{
    if rules.len() == 0 {
        Seq::empty()
    } else {
        rule_lines(rules.drop_last()) + rule_line(rules.last())
    }
}

/// The records, a line each.
pub open spec fn record_lines(records: Seq<route_table::RecordView>) -> Seq<char>
    decreases records.len(),
{
    if records.len() == 0 {
        Seq::empty()
    } else {
        record_lines(records.drop_last()) + record_line(records.last())
    }
}

/// Texts, a line each, every line with a label in front.
pub open spec fn labelled_lines(label: Seq<char>, items: Seq<Seq<char>>) -> Seq<char>
    decreases items.len(),
{
    if items.len() == 0 {
        Seq::empty()
    } else {
        labelled_lines(label, items.drop_last()) + (label + " "@ + items.last() + "\n"@)
    }
}

/// A table and the user's extra entries, a line for each item.
pub open spec fn table_text(t: route_table::TableView, extra: Seq<Seq<char>>) -> Seq<char> {
    rule_lines(t.rules) + labelled_lines("dns-server"@, t.dns_servers) + record_lines(t.dns_records)
        + labelled_lines("extra"@, extra)
}

fn describe_rules(rules: &Vec<RouteRule>) -> (r: String)
    ensures
        r@ == rule_lines(text::views(rules@)),
{
    let ghost all = text::views(rules@);
    let mut out = String::new();
    assert(out@ =~= rule_lines(all.take(0)));
    for i in 0..rules.len()
        invariant
            all == text::views(rules@),
            out@ == rule_lines(all.take(i as int)),
    {
        assert(all.take(i + 1).drop_last() == all.take(i as int));
        assert(all.take(i + 1).last() == rules@[i as int]@);
        let rule = &rules[i];
        let id = text::decimal_i32(rule.rc_id);
        let proto = text::decimal_i32(rule.proto);
        let start = text::decimal_u64(rule.port.start as u64);
        let end = text::decimal_u64(rule.port.end as u64);
        let line = "rule rc_id=".to_owned().concat(id.as_str()).concat(" proto=").concat(
            proto.as_str(),
        ).concat(" name=").concat(rule.name.as_str()).concat(" host=").concat(
            rule.host.as_str(),
        ).concat(" port=").concat(start.as_str()).concat("~").concat(end.as_str()).concat("\n");
        out.append(line.as_str());
    }
    assert(all.take(all.len() as int) == all);
    out
}

fn describe_records(records: &Vec<DnsRecord>) -> (r: String)
    ensures
        r@ == record_lines(text::views(records@)),
{
    let ghost all = text::views(records@);
    let mut out = String::new();
    assert(out@ =~= record_lines(all.take(0)));
    for i in 0..records.len()
        invariant
            all == text::views(records@),
            out@ == record_lines(all.take(i as int)),
    {
        assert(all.take(i + 1).drop_last() == all.take(i as int));
        assert(all.take(i + 1).last() == records@[i as int]@);
        let id = text::decimal_i32(records[i].rc_id);
        let line = "dns-record rc_id=".to_owned().concat(id.as_str()).concat(" host=").concat(
            records[i].host.as_str(),
        ).concat(" ip=").concat(records[i].ip.as_str()).concat("\n");
        out.append(line.as_str());
    }
    assert(all.take(all.len() as int) == all);
    out
}

fn describe_items(label: &str, items: &Vec<String>) -> (r: String)
    ensures
        r@ == labelled_lines(label@, text::views(items@)),
{
    let ghost all = text::views(items@);
    let mut out = String::new();
    assert(out@ =~= labelled_lines(label@, all.take(0)));
    for i in 0..items.len()
        invariant
            all == text::views(items@),
            out@ == labelled_lines(label@, all.take(i as int)),
    {
        assert(all.take(i + 1).drop_last() == all.take(i as int));
        assert(all.take(i + 1).last() == items@[i as int]@);
        let line = label.to_owned().concat(" ").concat(items[i].as_str()).concat("\n");
        out.append(line.as_str());
    }
    assert(all.take(all.len() as int) == all);
    out
}

/// A table and the user's extra entries, a line for each item.
pub fn log_table_details(table: &RouteTable, extra_ips: &Vec<String>) -> (r: String)
    ensures
        r@ == table_text(table@, text::views(extra_ips@)),
{
    let rules = describe_rules(&table.rules);
    let servers = describe_items("dns-server", &table.dns_servers);
    let records = describe_records(&table.dns_records);
    let extra = describe_items("extra", extra_ips);
    rules.concat(servers.as_str()).concat(records.as_str()).concat(extra.as_str())
}

// ---------------------------------------------------------------------------
// Laws
// ---------------------------------------------------------------------------

/// An IPv4 target that one of the user's extra entries covers goes through the tunnel,
/// whatever the table says of it and whatever the port.
pub proof fn law_extra_goes_remote(
    t: route_table::TableView,
    extra: Seq<Seq<char>>,
    k: int,
    host: Seq<char>,
    port: u16,
)
    requires
        0 <= k < extra.len(),
        target_of(host) is Ipv4,
        extra_of(extra[k]) matches Some(m) && host_matches(m, target_of(host)),
    ensures
        compiled_table(t, extra).plan_of(host, port) == PlanStepView::Ready(
            remote_to(
                target_of(host)->Ipv4_0,
                port,
                0,
                "--extra"@,
                RouteSourceView::ExtraIp,
            ),
        ),
{
    lemma_extra_is_kept(extra, k);
    let kept = extras_of(extra);
    let m = extra_of(extra[k])->0;
    let i = choose|i: int| 0 <= i < kept.len() && kept[i] == m;
    assert(host_matches(kept[i], target_of(host)));
    assert(extra_hits(kept, target_of(host)));
}

proof fn lemma_extra_is_kept(extra: Seq<Seq<char>>, k: int)
    requires
        0 <= k < extra.len(),
        extra_of(extra[k]) is Some,
    ensures
        extras_of(extra).contains(extra_of(extra[k])->0),
    decreases extra.len(),
{
    let before = extras_of(extra.drop_last());
    if k < extra.len() - 1 {
        lemma_extra_is_kept(extra.drop_last(), k);
        assert(extra.drop_last()[k] == extra[k]);
        let i = choose|i: int| 0 <= i < before.len() && before[i] == extra_of(extra[k])->0;
        assert(extras_of(extra)[i] == before[i]);
    } else {
        assert(extras_of(extra).last() == extra_of(extra[k])->0);
    }
}

/// Extra entries are for IPv4 targets alone: what is planned for a domain does not depend
/// on them.
pub proof fn law_extra_leaves_domains_alone(
    t: route_table::TableView,
    extra: Seq<Seq<char>>,
    host: Seq<char>,
    port: u16,
)
    requires
        target_of(host) is Domain,
    ensures
        compiled_table(t, extra).plan_of(host, port) == compiled_table(t, Seq::empty()).plan_of(
            host,
            port,
        ),
{
    lemma_extras_are_addresses(extra);
    assert(!extra_hits(extras_of(extra), target_of(host)));
    assert(!extra_hits(extras_of(Seq::empty()), target_of(host)));
}

/// Without a table everything goes through the tunnel, and says why.
pub proof fn law_tunnel_fallback_routes_everything_remote(host: Seq<char>, port: u16)
    ensures
        RouterState::TunnelFallback.plan_of(host, port) matches Ok(
            PlanStepView::Ready(PlanView::Remote { source, dial, .. }),
        ) && source == RouteSourceView::RouteTableUnavailable && dial == with_port(host, port),
{
}

/// A plan is remote, or leads to a lookup, only if an extra entry or a rule outside protocol
/// class one is for the target and port.
pub proof fn law_remote_needs_a_match(m: RouterView, host: Seq<char>, port: u16)
    requires
        !extra_hits(m.extra, target_of(host)),
        forall|i: int|
            0 <= i < m.rules.len() ==> !rule_hits(#[trigger] m.rules[i], target_of(host), port),
    ensures
        m.plan_of(host, port) == PlanStepView::Ready(m.plan_without_rule(host, port)),
        m.plan_without_rule(host, port) is Fallback,
{
    lemma_no_hit(m.rules, target_of(host), port);
}

proof fn lemma_no_hit(rules: Seq<CompiledView>, t: TargetView, port: u16)
    requires
        forall|i: int| 0 <= i < rules.len() ==> !rule_hits(#[trigger] rules[i], t, port),
    ensures
        first_hit(rules, t, port) is None,
    decreases rules.len(),
{
    if rules.len() > 0 {
        assert(!rule_hits(rules[0], t, port));
        assert forall|i: int| 0 <= i < rules.skip(1).len() implies !rule_hits(
            #[trigger] rules.skip(1)[i],
            t,
            port,
        ) by {
            assert(rules.skip(1)[i] == rules[i + 1]);
        }
        lemma_no_hit(rules.skip(1), t, port);
    }
}

/// The rules of one class in the order of the table, with repetitions.
pub open spec fn all_rules(rules: Seq<route_table::RuleView>, proto1: bool) -> Seq<CompiledView>
    decreases rules.len(),
{
    if rules.len() == 0 {
        Seq::empty()
    } else {
        let before = all_rules(rules.drop_last(), proto1);
        match compiled(rules.last()) {
            Some(c) => if (rules.last().proto == 1) == proto1 {
                before.push(c)
            } else {
                before
            },
            None => before,
        }
    }
}

proof fn lemma_first_hit_push(rules: Seq<CompiledView>, c: CompiledView, t: TargetView, port: u16)
    ensures
        first_hit(rules.push(c), t, port) == match first_hit(rules, t, port) {
            Some(hit) => Some(hit),
            None => if rule_hits(c, t, port) {
                Some(c)
            } else {
                None
            },
        },
    decreases rules.len(),
{
    if rules.len() == 0 {
        assert(rules.push(c).skip(1) =~= Seq::empty());
        assert(first_hit(Seq::empty(), t, port) is None);
    } else {
        assert(rules.push(c).skip(1) =~= rules.skip(1).push(c));
        lemma_first_hit_push(rules.skip(1), c, t, port);
    }
}

proof fn lemma_contained_hit(rules: Seq<CompiledView>, c: CompiledView, t: TargetView, port: u16)
    requires
        rules.contains(c),
        rule_hits(c, t, port),
    ensures
        first_hit(rules, t, port) is Some,
    decreases rules.len(),
{
    let i = choose|i: int| 0 <= i < rules.len() && rules[i] == c;
    if !rule_hits(rules[0], t, port) {
        assert(rules.skip(1)[i - 1] == c);
        lemma_contained_hit(rules.skip(1), c, t, port);
    }
}

/// Leaving repeated rules out changes no plan: the first rule that is for a target is the
/// same with the repetitions as without.
pub proof fn law_repeated_rules_do_not_matter(
    rules: Seq<route_table::RuleView>,
    proto1: bool,
    t: TargetView,
    port: u16,
)
    ensures
        first_hit(compiled_rules(rules, proto1), t, port) == first_hit(
            all_rules(rules, proto1),
            t,
            port,
        ),
    decreases rules.len(),
{
    if rules.len() > 0 {
        law_repeated_rules_do_not_matter(rules.drop_last(), proto1, t, port);
        let before = compiled_rules(rules.drop_last(), proto1);
        if let Some(c) = compiled(rules.last()) {
            lemma_first_hit_push(before, c, t, port);
            lemma_first_hit_push(all_rules(rules.drop_last(), proto1), c, t, port);
            if before.contains(c) && rule_hits(c, t, port) {
                lemma_contained_hit(before, c, t, port);
            }
        }
    }
}

/// No compiled rule occurs twice.
pub proof fn law_compiled_rules_are_distinct(rules: Seq<route_table::RuleView>, proto1: bool)
    ensures
        compiled_rules(rules, proto1).no_duplicates(),
    decreases rules.len(),
{
    if rules.len() > 0 {
        law_compiled_rules_are_distinct(rules.drop_last(), proto1);
    }
}

/// No entry occurs twice.
pub proof fn law_entries_are_distinct(records: Seq<route_table::RecordView>)
    ensures
        entries_of(records).no_duplicates(),
    decreases records.len(),
{
    if records.len() > 0 {
        law_entries_are_distinct(records.drop_last());
    }
}

/// The plan for a domain dials the first of its addresses.
pub proof fn law_first_ip_is_first(entries: Seq<EntryView>, rc_id: i32, host: Seq<char>)
    ensures
        match first_ip(entries, rc_id, host) {
            Some(ip) => host_ips(entries, rc_id, host).len() > 0 && host_ips(
                entries,
                rc_id,
                host,
            )[0] == ip,
            None => host_ips(entries, rc_id, host).len() == 0,
        },
    decreases entries.len(),
{
    if entries.len() > 0 {
        law_first_ip_is_first(entries.drop_last(), rc_id, host);
        lemma_first_ip_last(entries, rc_id, host);
    }
}

proof fn lemma_first_ip_last(entries: Seq<EntryView>, rc_id: i32, host: Seq<char>)
    requires
        entries.len() > 0,
    ensures
        first_ip(entries, rc_id, host) == match first_ip(entries.drop_last(), rc_id, host) {
            Some(ip) => Some(ip),
            None => if entries.last().rc_id == rc_id && entries.last().host == host {
                Some(entries.last().ip)
            } else {
                None
            },
        },
    decreases entries.len(),
{
    if entries.len() == 1 {
        assert(entries.skip(1) =~= Seq::empty());
        assert(entries.drop_last() =~= Seq::empty());
        assert(first_ip(Seq::empty(), rc_id, host) is None);
    } else {
        assert(entries.skip(1).drop_last() =~= entries.drop_last().skip(1));
        lemma_first_ip_last(entries.skip(1), rc_id, host);
    }
}

/// A range, however its ends are ordered, covers the addresses between them, both in.
pub proof fn law_range_is_unordered(a: Ipv4Addr, b: Ipv4Addr, ip: Ipv4Addr)
    ensures
        range_between(a, b) == range_between(b, a),
        a.bits <= ip.bits <= b.bits ==> host_matches(range_between(a, b), TargetView::Ipv4(ip)),
{
}

proof fn lemma_tilde_is_found(p: Seq<char>, q: Seq<char>)
    requires
        !p.contains('~'),
    ensures
        ({
            let host = p + "~"@ + q;
            &&& text::first_of(host, '~') == Some(p.len() as int)
            &&& host.take(p.len() as int) == p
            &&& host.skip(p.len() as int + 1) == q
        }),
{
    reveal_strlit("~");
    let host = p + "~"@ + q;
    let n = p.len() as int;
    assert(text::is_first(host, '~', n)) by {
        assert forall|j: int| 0 <= j < n implies host[j] != '~' by {
            assert(host[j] == p[j]);
        }
    }
    text::lemma_first_of(host, '~', n);
    assert(host.take(n) =~= p);
    assert(host.skip(n + 1) =~= q);
}

proof fn lemma_range_is_read(p: Seq<char>, q: Seq<char>, a: Ipv4Addr, b: Ipv4Addr)
    requires
        addr::ipv4_text(p) == Some(a),
        addr::ipv4_text(q) == Some(b),
    ensures
        matcher_of(p + "~"@ + q) == Some(range_between(a, b)),
{
    addr::lemma_ipv4_characters(p);
    addr::lemma_ipv4_characters(q);
    assert(!p.contains('~'));
    lemma_tilde_is_found(p, q);
    text::lemma_trimmed_already(p);
    text::lemma_trimmed_already(q);
}

/// A rule for the range between two addresses compiles to the same whichever of them stands
/// first: to the addresses from the lower to the higher, with id, name and port of the rule.
pub proof fn law_ranges_compile_either_way(
    rule: route_table::RuleView,
    p: Seq<char>,
    q: Seq<char>,
    a: Ipv4Addr,
    b: Ipv4Addr,
)
    requires
        addr::ipv4_text(p) == Some(a),
        addr::ipv4_text(q) == Some(b),
    ensures
        ({
            let there = route_table::RuleView { host: p + "~"@ + q, ..rule };
            let back = route_table::RuleView { host: q + "~"@ + p, ..rule };
            let low = if a.bits <= b.bits {
                a.bits
            } else {
                b.bits
            };
            let high = if a.bits <= b.bits {
                b.bits
            } else {
                a.bits
            };
            &&& compiled(there) == Some(
                CompiledView {
                    rc_id: rule.rc_id,
                    rc_name: rule.name,
                    matcher: MatcherView::Ipv4Range(low, high),
                    port: rule.port,
                },
            )
            &&& compiled(back) == compiled(there)
        }),
{
    lemma_range_is_read(p, q, a, b);
    lemma_range_is_read(q, p, b, a);
}

/// A rule whose host has a tilde compiles to nothing unless there is an address on both sides
/// of the first one; it is never taken for a domain.
pub proof fn law_broken_ranges_compile_to_nothing(
    rule: route_table::RuleView,
    p: Seq<char>,
    q: Seq<char>,
)
    requires
        rule.host == p + "~"@ + q,
        !p.contains('~'),
        addr::ipv4_text(text::trimmed(p)) is None || addr::ipv4_text(text::trimmed(q)) is None,
    ensures
        compiled(rule) is None,
{
    lemma_tilde_is_found(p, q);
}

/// The places of the servers that stay in a list: those that are not blank and are not listed
/// before.
pub open spec fn server_places(servers: Seq<Seq<char>>) -> Seq<int>
    decreases servers.len(),
{
    if servers.len() == 0 {
        Seq::empty()
    } else {
        let before = server_places(servers.drop_last());
        let token = text::trimmed(servers.last());
        if token.len() == 0 || listed(distinct_servers(servers.drop_last()), token) {
            before
        } else {
            before.push(servers.len() - 1)
        }
    }
}

/// The servers of a table are trimmed and not blank, no two of them differ only in the case
/// of their letters, and every server of the list that is not blank is among them, but for
/// the case of its letters.
pub proof fn law_servers_are_distinct_and_complete(servers: Seq<Seq<char>>)
    ensures
        ({
            let out = distinct_servers(servers);
            &&& forall|i: int|
                0 <= i < out.len() ==> (#[trigger] out[i]).len() > 0 && text::trimmed(out[i])
                    == out[i]
            &&& forall|i: int, j: int|
                0 <= i < j < out.len() ==> text::lowered(#[trigger] out[i]) != text::lowered(
                    #[trigger] out[j],
                )
            &&& forall|k: int|
                0 <= k < servers.len() && text::trimmed(#[trigger] servers[k]).len() > 0
                    ==> listed(out, text::trimmed(servers[k]))
        }),
    decreases servers.len(),
{
    if servers.len() > 0 {
        let rest = servers.drop_last();
        let before = distinct_servers(rest);
        let out = distinct_servers(servers);
        let token = text::trimmed(servers.last());
        law_servers_are_distinct_and_complete(rest);
        text::law_trim_is_idempotent(servers.last());
        assert forall|x: Seq<char>| #[trigger] listed(before, x) implies listed(out, x) by {
            let i = choose|i: int|
                0 <= i < before.len() && text::lowered(#[trigger] before[i]) == text::lowered(x);
            assert(out[i] == before[i]);
        }
        assert forall|k: int|
            0 <= k < servers.len() && text::trimmed(
                #[trigger] servers[k],
            ).len() > 0 implies listed(out, text::trimmed(servers[k])) by {
            if k < rest.len() {
                assert(rest[k] == servers[k]);
            } else if !listed(before, token) {
                assert(out[out.len() - 1] == token);
            }
        }
        assert forall|i: int, j: int| 0 <= i < j < out.len() implies text::lowered(
            #[trigger] out[i],
        ) != text::lowered(#[trigger] out[j]) by {
            assert(out[i] == before[i]);
            if j < before.len() {
                assert(out[j] == before[j]);
            } else if text::lowered(before[i]) == text::lowered(token) {
                assert(listed(before, token));
            }
        }
    }
}

/// The servers of a table stand in the order of the list, each as it is written where it
/// occurs first, whatever the case of its letters.
pub proof fn law_servers_are_first_occurrences(servers: Seq<Seq<char>>)
    ensures
        ({
            let out = distinct_servers(servers);
            let places = server_places(servers);
            &&& places.len() == out.len()
            &&& forall|i: int, j: int|
                0 <= i < j < places.len() ==> (#[trigger] places[i]) < (#[trigger] places[j])
            &&& forall|i: int|
                0 <= i < places.len() ==> {
                    &&& 0 <= #[trigger] places[i] < servers.len()
                    &&& out[i] == text::trimmed(servers[places[i]])
                    &&& forall|k: int|
                        0 <= k < places[i] ==> text::lowered(text::trimmed(#[trigger] servers[k]))
                            != text::lowered(out[i])
                }
        }),
    decreases servers.len(),
{
    if servers.len() > 0 {
        let rest = servers.drop_last();
        let before = distinct_servers(rest);
        let out = distinct_servers(servers);
        let places = server_places(servers);
        let token = text::trimmed(servers.last());
        law_servers_are_first_occurrences(rest);
        law_servers_are_distinct_and_complete(rest);
        assert forall|i: int| 0 <= i < places.len() implies {
            &&& 0 <= #[trigger] places[i] < servers.len()
            &&& out[i] == text::trimmed(servers[places[i]])
            &&& forall|k: int|
                0 <= k < places[i] ==> text::lowered(text::trimmed(#[trigger] servers[k]))
                    != text::lowered(out[i])
        } by {
            if i < before.len() {
                assert(places[i] == server_places(rest)[i]);
                assert(out[i] == before[i]);
                assert(rest[places[i]] == servers[places[i]]);
                assert forall|k: int| 0 <= k < places[i] implies text::lowered(
                    text::trimmed(#[trigger] servers[k]),
                ) != text::lowered(out[i]) by {
                    assert(rest[k] == servers[k]);
                }
            } else {
                assert forall|k: int| 0 <= k < places[i] implies text::lowered(
                    text::trimmed(#[trigger] servers[k]),
                ) != text::lowered(token) by {
                    assert(rest[k] == servers[k]);
                    if text::lowered(text::trimmed(rest[k])) == text::lowered(token) {
                        if text::trimmed(rest[k]).len() == 0 {
                            assert(text::lowered(token).len() == token.len());
                            assert(text::lowered(text::trimmed(rest[k])).len() == 0);
                        } else {
                            let x = text::trimmed(rest[k]);
                            assert(listed(before, x));
                            let m = choose|m: int|
                                0 <= m < before.len() && text::lowered(#[trigger] before[m])
                                    == text::lowered(x);
                            assert(text::lowered(before[m]) == text::lowered(token));
                            assert(listed(before, token));
                        }
                    }
                }
            }
        }
    }
}

/// The servers of a table stay as they are if they are taken as a list again.
pub proof fn law_servers_stay(servers: Seq<Seq<char>>)
    ensures
        distinct_servers(distinct_servers(servers)) == distinct_servers(servers),
{
    let out = distinct_servers(servers);
    law_servers_are_distinct_and_complete(servers);
    lemma_distinct_servers_stay(out);
}

proof fn lemma_distinct_servers_stay(out: Seq<Seq<char>>)
    requires
        forall|i: int|
            0 <= i < out.len() ==> (#[trigger] out[i]).len() > 0 && text::trimmed(out[i]) == out[i],
        forall|i: int, j: int|
            0 <= i < j < out.len() ==> text::lowered(#[trigger] out[i]) != text::lowered(
                #[trigger] out[j],
            ),
    ensures
        distinct_servers(out) == out,
    decreases out.len(),
{
    if out.len() > 0 {
        let rest = out.drop_last();
        assert forall|i: int| 0 <= i < rest.len() implies (#[trigger] rest[i]).len() > 0
            && text::trimmed(rest[i]) == rest[i] by {
            assert(rest[i] == out[i]);
        }
        assert forall|i: int, j: int| 0 <= i < j < rest.len() implies text::lowered(
            #[trigger] rest[i],
        ) != text::lowered(#[trigger] rest[j]) by {
            assert(rest[i] == out[i] && rest[j] == out[j]);
        }
        lemma_distinct_servers_stay(rest);
        let n = out.len() - 1;
        assert(out[n] == out.last());
        if listed(rest, out.last()) {
            let i = choose|i: int|
                0 <= i < rest.len() && text::lowered(#[trigger] rest[i]) == text::lowered(
                    out.last(),
                );
            assert(rest[i] == out[i]);
        }
        assert(rest.push(out.last()) =~= out);
    }
}

/// A network covers the address it is written with.
pub proof fn law_network_covers_its_address(ip: Ipv4Addr, prefix: int)
    requires
        0 <= prefix <= 32,
    ensures
        host_matches(network_of(ip, prefix), TargetView::Ipv4(ip)),
{
    lemma_block_size(prefix);
    lemma_network_fits(ip.bits as int, block_size(prefix));
}

/// The case of its letters does not matter for what a host names, and so for the rules that
/// are for it.
pub proof fn law_case_does_not_matter(a: Seq<char>, b: Seq<char>)
    requires
        text::same_but_case(a, b),
    ensures
        target_of(a) == target_of(b),
        matcher_of(a) == matcher_of(b),
{
    text::lemma_trimmed_but_case(a, b);
    let x = text::trimmed(a);
    let y = text::trimmed(b);
    lemma_same_address(x, y);
    text::lemma_dots_but_case(x, y);
    lemma_same_range(a, b);
}

proof fn lemma_same_address(x: Seq<char>, y: Seq<char>)
    requires
        text::same_but_case(x, y),
    ensures
        addr::ipv4_text(x) == addr::ipv4_text(y),
{
    if addr::ipv4_text(x) is Some {
        addr::lemma_ipv4_characters(x);
        text::lemma_no_letters_no_case(x, y);
    }
    if addr::ipv4_text(y) is Some {
        addr::lemma_ipv4_characters(y);
        text::lemma_no_letters_no_case(y, x);
    }
}

proof fn lemma_same_range(a: Seq<char>, b: Seq<char>)
    requires
        text::same_but_case(a, b),
    ensures
        text::first_of(a, '~') == text::first_of(b, '~'),
        text::first_of(a, '~') matches Some(i) ==> range_text(a, i) == range_text(b, i),
{
    text::lemma_found_but_case(a, b, '~');
    text::lemma_found_but_case(b, a, '~');
    if let Some(i) = text::first_of(a, '~') {
        assert(text::is_first(a, '~', i));
        text::lemma_cut_but_case(a, b, i);
        text::lemma_trimmed_but_case(a.take(i), b.take(i));
        text::lemma_trimmed_but_case(a.skip(i + 1), b.skip(i + 1));
        lemma_same_address(text::trimmed(a.take(i)), text::trimmed(b.take(i)));
        lemma_same_address(text::trimmed(a.skip(i + 1)), text::trimmed(b.skip(i + 1)));
    }
}

/// Whatever a table plans to dial is an IPv4 address, with the port that was asked for.
pub proof fn law_tables_dial_addresses(
    m: RouterView,
    host: Seq<char>,
    port: u16,
    resolved: Result<dns_resolver::ResolvedView, EcErrorView>,
)
    ensures
        match m.plan_of(host, port) {
            PlanStepView::Ready(plan) => dials_an_address(plan, port),
            PlanStepView::Lookup(pending) => pending.port == port && dials_an_address(
                pending.finished(resolved),
                port,
            ),
        },
{
    if let TargetView::Ipv4(ip) = target_of(host) {
        addr::law_socket_v4_text_is_read_back(ip, port);
    }
    if extra_hits(m.extra, target_of(host)) {
        addr::law_socket_v4_text_is_read_back(target_of(host)->Ipv4_0, port);
    }
    if let Some(rule) = first_hit(m.rules, target_of(host), port) {
        if let TargetView::Domain(domain) = target_of(host) {
            if let Some(ip) = first_ip(m.dns_map, rule.rc_id, domain) {
                addr::law_socket_v4_text_is_read_back(ip, port);
            }
        }
    }
    if let Ok(r) = resolved {
        addr::law_socket_v4_text_is_read_back(r.ip, port);
    }
}

/// A plan that goes through the tunnel dials an IPv4 address with the given port.
pub open spec fn dials_an_address(plan: PlanView, port: u16) -> bool {
    plan matches PlanView::Remote { dial, .. } ==> {
        &&& addr::socket_text(dial) matches Some(SocketAddrView::V4 { port: p, .. })
        &&& p == port
    }
}

proof fn lemma_rule_has_source(rules: Seq<route_table::RuleView>, proto1: bool, i: int)
    requires
        0 <= i < compiled_rules(rules, proto1).len(),
    ensures
        exists|k: int|
            0 <= k < rules.len() && compiled(#[trigger] rules[k]) == Some(
                compiled_rules(rules, proto1)[i],
            ),
    decreases rules.len(),
{
    if rules.len() > 0 {
        let rest = rules.drop_last();
        let before = compiled_rules(rest, proto1);
        let c = compiled_rules(rules, proto1)[i];
        if i < before.len() {
            lemma_rule_has_source(rest, proto1, i);
            let k = choose|k: int|
                0 <= k < rest.len() && compiled(#[trigger] rest[k]) == Some(before[i]);
            assert(rules[k] == rest[k]);
        } else {
            assert(compiled(rules[rules.len() - 1]) == Some(c));
        }
    }
}

/// A rule is for the ports from its first to its last, and for no others: where every rule of a
/// table ends below the port or begins above it, the target goes round the tunnel, whatever it
/// is and whatever the hosts of the rules are.
#[verifier::rlimit(40)]
pub proof fn law_ports_outside_all_rules_fall_back(
    t: route_table::TableView,
    host: Seq<char>,
    port: u16,
)
    requires
        forall|k: int|
            0 <= k < t.rules.len() ==> port < (#[trigger] t.rules[k]).port.start || port
                > t.rules[k].port.end,
    ensures
        compiled_table(t, Seq::empty()).plan_of(host, port) == PlanStepView::Ready(
            PlanView::Fallback {
                target: host + ":"@ + text::decimal(port as int),
                reason: "no whitelist rule matched"@,
                reserved_proto1: false,
            },
        ),
{
    let m = compiled_table(t, Seq::empty());
    let target = target_of(host);
    assert forall|i: int| 0 <= i < m.rules.len() implies !rule_hits(
        #[trigger] m.rules[i],
        target,
        port,
    ) by {
        lemma_rule_has_source(t.rules, false, i);
        let k = choose|k: int|
            0 <= k < t.rules.len() && compiled(#[trigger] t.rules[k]) == Some(m.rules[i]);
        assert(m.rules[i].port == t.rules[k].port);
    }
    assert forall|i: int| 0 <= i < m.proto1_rules.len() implies !rule_hits(
        #[trigger] m.proto1_rules[i],
        target,
        port,
    ) by {
        lemma_rule_has_source(t.rules, true, i);
        let k = choose|k: int|
            0 <= k < t.rules.len() && compiled(#[trigger] t.rules[k]) == Some(m.proto1_rules[i]);
        assert(m.proto1_rules[i].port == t.rules[k].port);
    }
    lemma_no_hit(m.rules, target, port);
    lemma_no_hit(m.proto1_rules, target, port);
}

#[verifier::rlimit(40)]
proof fn lemma_one_rule(t: route_table::TableView, rule: route_table::RuleView, host: Seq<char>, port: u16)
    ensures
        ({
            let m = compiled_table(
                route_table::TableView { rules: seq![rule], ..t },
                Seq::empty(),
            );
            m.plan_of(host, port) == match compiled(rule) {
                Some(c) => if !rule_hits(c, target_of(host), port) {
                    PlanStepView::Ready(plain_fallback(host, port, "no whitelist rule matched"@))
                } else if rule.proto == 1 {
                    PlanStepView::Ready(
                        PlanView::Fallback {
                            target: with_port(host, port),
                            reason: "matched reserved proto=1 rule rc_id="@ + text::decimal(
                                rule.rc_id as int,
                            ) + " name="@ + rule.name
                                + "; proto=1 is separated from normal routing and forced to fallback"@,
                            reserved_proto1: true,
                        },
                    )
                } else {
                    m.plan_for_rule(c, host, port)
                },
                None => PlanStepView::Ready(
                    plain_fallback(host, port, "no whitelist rule matched"@),
                ),
            }
        }),
{
    let rules = seq![rule];
    let m = compiled_table(route_table::TableView { rules, ..t }, Seq::empty());
    let target = target_of(host);
    assert(rules.drop_last() =~= Seq::<route_table::RuleView>::empty());
    assert(compiled_rules(rules.drop_last(), false) =~= Seq::<CompiledView>::empty());
    assert(compiled_rules(rules.drop_last(), true) =~= Seq::<CompiledView>::empty());
    assert(!extra_hits(m.extra, target));
    let nothing = Seq::<CompiledView>::empty();
    assert(first_hit(nothing, target, port) is None);
    match compiled(rule) {
        Some(c) => {
            let one = seq![c];
            assert(one.skip(1) =~= nothing);
            assert(nothing.push(c) =~= one);
            if rule.proto == 1 {
                assert(m.rules =~= nothing && m.proto1_rules =~= one);
            } else {
                assert(m.rules =~= one && m.proto1_rules =~= nothing);
            }
        },
        None => {
            assert(m.rules =~= nothing && m.proto1_rules =~= nothing);
        },
    }
}

/// A rule for one address sends that address through the tunnel at the ports from its first to
/// its last, both in, and nothing else: other addresses and other ports go round it, and so
/// does everything if the rule is of protocol class one.
#[verifier::rlimit(40)]
pub proof fn law_rules_for_one_address(
    t: route_table::TableView,
    rule: route_table::RuleView,
    a: Ipv4Addr,
    host: Seq<char>,
    ip: Ipv4Addr,
    port: u16,
)
    requires
        !rule.host.contains('~'),
        addr::ipv4_text(text::trimmed(rule.host)) == Some(a),
        addr::ipv4_text(text::trimmed(host)) == Some(ip),
    ensures
        ({
            let plan = compiled_table(
                route_table::TableView { rules: seq![rule], ..t },
                Seq::empty(),
            ).plan_of(host, port);
            let hit = a.bits == ip.bits && rule.port.start <= port && port <= rule.port.end;
            &&& hit && rule.proto != 1 ==> plan == PlanStepView::Ready(
                PlanView::Remote {
                    dial: ip.text() + ":"@ + text::decimal(port as int),
                    rc_id: rule.rc_id,
                    rc_name: rule.name,
                    source: RouteSourceView::RuleIp,
                },
            )
            &&& hit && rule.proto == 1 ==> (plan matches PlanStepView::Ready(
                PlanView::Fallback { target, reserved_proto1, .. },
            ) && reserved_proto1 && target == host + ":"@ + text::decimal(port as int))
            &&& !hit ==> plan == PlanStepView::Ready(
                PlanView::Fallback {
                    target: host + ":"@ + text::decimal(port as int),
                    reason: "no whitelist rule matched"@,
                    reserved_proto1: false,
                },
            )
        }),
{
    lemma_one_rule(t, rule, host, port);
    text::law_characters_are_found(rule.host, '~', Seq::empty());
}

/// A rule for a range of addresses sends those from the lower to the higher of its ends, both
/// in and however they are ordered, through the tunnel at its ports, and nothing else.
#[verifier::rlimit(40)]
pub proof fn law_rules_for_a_range(
    t: route_table::TableView,
    rule: route_table::RuleView,
    p: Seq<char>,
    q: Seq<char>,
    a: Ipv4Addr,
    b: Ipv4Addr,
    host: Seq<char>,
    ip: Ipv4Addr,
    port: u16,
)
    requires
        rule.host == p + "~"@ + q,
        addr::ipv4_text(p) == Some(a),
        addr::ipv4_text(q) == Some(b),
        addr::ipv4_text(text::trimmed(host)) == Some(ip),
    ensures
        ({
            let plan = compiled_table(
                route_table::TableView { rules: seq![rule], ..t },
                Seq::empty(),
            ).plan_of(host, port);
            let between = a.bits <= ip.bits <= b.bits || b.bits <= ip.bits <= a.bits;
            let hit = between && rule.port.start <= port && port <= rule.port.end;
            &&& hit && rule.proto != 1 ==> plan == PlanStepView::Ready(
                PlanView::Remote {
                    dial: ip.text() + ":"@ + text::decimal(port as int),
                    rc_id: rule.rc_id,
                    rc_name: rule.name,
                    source: RouteSourceView::RuleIp,
                },
            )
            &&& hit && rule.proto == 1 ==> (plan matches PlanStepView::Ready(
                PlanView::Fallback { target, reserved_proto1, .. },
            ) && reserved_proto1 && target == host + ":"@ + text::decimal(port as int))
            &&& !hit ==> plan == PlanStepView::Ready(
                PlanView::Fallback {
                    target: host + ":"@ + text::decimal(port as int),
                    reason: "no whitelist rule matched"@,
                    reserved_proto1: false,
                },
            )
        }),
{
    lemma_one_rule(t, rule, host, port);
    lemma_range_is_read(p, q, a, b);
}

/// A rule for addresses is for no name, and a rule for a name is for no address.
#[verifier::rlimit(40)]
pub proof fn law_names_and_addresses_do_not_mix(
    t: route_table::TableView,
    rule: route_table::RuleView,
    host: Seq<char>,
    port: u16,
)
    requires
        addr::ipv4_text(text::trimmed(host)) is Some <==> (!rule.host.contains('~')
            && addr::ipv4_text(text::trimmed(rule.host)) is None),
    ensures
        compiled_table(
            route_table::TableView { rules: seq![rule], ..t },
            Seq::empty(),
        ).plan_of(host, port) == PlanStepView::Ready(
            PlanView::Fallback {
                target: host + ":"@ + text::decimal(port as int),
                reason: "no whitelist rule matched"@,
                reserved_proto1: false,
            },
        ),
{
    lemma_one_rule(t, rule, host, port);
    text::law_characters_are_found(rule.host, '~', Seq::empty());
}

/// The record gives the host of a rule an address: it is of the resource of the rule, has the
/// same name, and an address that can be read.
pub open spec fn gives_address(
    rec: route_table::RecordView,
    rc_id: i32,
    domain: Seq<char>,
) -> bool {
    &&& rec.rc_id == rc_id
    &&& domain_of(rec.host) == domain
    &&& addr::ipv4_text(text::trimmed(rec.ip)) is Some
}

proof fn lemma_no_ip(entries: Seq<EntryView>, rc_id: i32, domain: Seq<char>)
    ensures
        first_ip(entries, rc_id, domain) is None <==> forall|i: int|
            0 <= i < entries.len() ==> !((#[trigger] entries[i]).rc_id == rc_id && entries[i].host
                == domain),
    decreases entries.len(),
{
    if entries.len() > 0 {
        lemma_no_ip(entries.skip(1), rc_id, domain);
        if first_ip(entries, rc_id, domain) is None {
            assert forall|i: int| 0 <= i < entries.len() implies !((#[trigger] entries[i]).rc_id
                == rc_id && entries[i].host == domain) by {
                if i > 0 {
                    assert(entries.skip(1)[i - 1] == entries[i]);
                }
            }
        } else if entries[0].rc_id == rc_id && entries[0].host == domain {
        } else {
            let i = choose|i: int|
                0 <= i < entries.skip(1).len() && (#[trigger] entries.skip(1)[i]).rc_id == rc_id
                    && entries.skip(1)[i].host == domain;
            assert(entries[i + 1] == entries.skip(1)[i]);
        }
    }
}

#[verifier::rlimit(40)]
proof fn lemma_first_record(
    records: Seq<route_table::RecordView>,
    rc_id: i32,
    domain: Seq<char>,
    k: int,
)
    requires
        domain.len() > 0,
        0 <= k <= records.len(),
        forall|j: int| 0 <= j < k ==> !gives_address(#[trigger] records[j], rc_id, domain),
        k < records.len() ==> gives_address(records[k], rc_id, domain),
    ensures
        first_ip(entries_of(records), rc_id, domain) == if k < records.len() {
            addr::ipv4_text(text::trimmed(records[k].ip))
        } else {
            None
        },
    decreases records.len(),
{
    if records.len() > 0 {
        let rest = records.drop_last();
        let before = entries_of(rest);
        let last = records.last();
        assert(last == records[records.len() - 1]);
        if k < rest.len() {
            lemma_first_record(rest, rc_id, domain, k);
        } else {
            assert forall|j: int| 0 <= j < rest.len() implies !gives_address(
                #[trigger] rest[j],
                rc_id,
                domain,
            ) by {
                assert(rest[j] == records[j]);
            }
            lemma_first_record(rest, rc_id, domain, rest.len() as int);
        }
        if let Some(e) = entry_of(last) {
            if before.contains(e) {
                lemma_no_ip(before, rc_id, domain);
                let i = choose|i: int| 0 <= i < before.len() && before[i] == e;
                assert(before[i] == e);
            } else {
                assert(before.push(e).drop_last() =~= before);
                lemma_first_ip_last(before.push(e), rc_id, domain);
            }
        }
    }
}

/// A rule for a name is for the targets that have this name, at its ports. Such a target is
/// dialled at the address of the first record that gives one to the name under the resource of
/// the rule; without such a record it is looked up, if there is a server, and goes round the
/// tunnel if there is none.
#[verifier::rlimit(40)]
pub proof fn law_rules_for_a_name(
    t: route_table::TableView,
    rule: route_table::RuleView,
    host: Seq<char>,
    port: u16,
    k: int,
)
    requires
        !rule.host.contains('~'),
        addr::ipv4_text(text::trimmed(rule.host)) is None,
        addr::ipv4_text(text::trimmed(host)) is None,
        0 <= k <= t.dns_records.len(),
        forall|j: int|
            0 <= j < k ==> !gives_address(
                #[trigger] t.dns_records[j],
                rule.rc_id,
                domain_of(host),
            ),
        k < t.dns_records.len() ==> gives_address(t.dns_records[k], rule.rc_id, domain_of(host)),
    ensures
        ({
            let plan = compiled_table(
                route_table::TableView { rules: seq![rule], ..t },
                Seq::empty(),
            ).plan_of(host, port);
            let target = host + ":"@ + text::decimal(port as int);
            let hit = domain_of(rule.host) == domain_of(host) && domain_of(host).len() > 0
                && rule.port.start <= port && port <= rule.port.end;
            let served = exists|i: int|
                0 <= i < t.dns_servers.len() && text::trimmed(#[trigger] t.dns_servers[i]).len()
                    > 0;
            &&& !hit ==> plan == PlanStepView::Ready(
                PlanView::Fallback {
                    target,
                    reason: "no whitelist rule matched"@,
                    reserved_proto1: false,
                },
            )
            &&& hit && rule.proto == 1 ==> (plan matches PlanStepView::Ready(
                PlanView::Fallback { target: to, reserved_proto1, .. },
            ) && reserved_proto1 && to == target)
            &&& hit && rule.proto != 1 && k < t.dns_records.len() ==> plan == PlanStepView::Ready(
                PlanView::Remote {
                    dial: addr::ipv4_text(text::trimmed(t.dns_records[k].ip))->0.text() + ":"@
                        + text::decimal(port as int),
                    rc_id: rule.rc_id,
                    rc_name: rule.name,
                    source: RouteSourceView::DnsMap,
                },
            )
            &&& hit && rule.proto != 1 && k == t.dns_records.len() && served ==> plan
                == PlanStepView::Lookup(
                PendingView {
                    rc_id: rule.rc_id,
                    rc_name: rule.name,
                    domain: domain_of(host),
                    host,
                    port,
                },
            )
            &&& hit && rule.proto != 1 && k == t.dns_records.len() && !served ==> (
            plan matches PlanStepView::Ready(
                PlanView::Fallback { target: to, reserved_proto1, .. },
            ) && !reserved_proto1 && to == target)
        }),
{
    lemma_one_rule(t, rule, host, port);
    text::law_characters_are_found(rule.host, '~', Seq::empty());
    if domain_of(host).len() > 0 {
        lemma_first_record(t.dns_records, rule.rc_id, domain_of(host), k);
    }
    law_servers_are_distinct_and_complete(t.dns_servers);
    law_servers_are_first_occurrences(t.dns_servers);
    let out = distinct_servers(t.dns_servers);
    if exists|i: int|
        0 <= i < t.dns_servers.len() && text::trimmed(#[trigger] t.dns_servers[i]).len() > 0 {
        let i = choose|i: int|
            0 <= i < t.dns_servers.len() && text::trimmed(#[trigger] t.dns_servers[i]).len() > 0;
        assert(listed(out, text::trimmed(t.dns_servers[i])));
        assert(out.len() > 0);
    } else if out.len() > 0 {
        let places = server_places(t.dns_servers);
        assert(out[0].len() > 0);
        assert(0 <= places[0] < t.dns_servers.len());
        assert(text::trimmed(t.dns_servers[places[0]]).len() > 0);
    }
}

proof fn lemma_all_rules_join(
    a: Seq<route_table::RuleView>,
    b: Seq<route_table::RuleView>,
    proto1: bool,
)
    ensures
        all_rules(a + b, proto1) == all_rules(a, proto1) + all_rules(b, proto1),
    decreases b.len(),
{
    if b.len() == 0 {
        assert(a + b =~= a);
        assert(all_rules(a, proto1) + all_rules(b, proto1) =~= all_rules(a, proto1));
    } else {
        lemma_all_rules_join(a, b.drop_last(), proto1);
        assert((a + b).drop_last() =~= a + b.drop_last());
        assert(all_rules(a + b, proto1) =~= all_rules(a, proto1) + all_rules(b, proto1));
    }
}

proof fn lemma_first_hit_join(
    a: Seq<CompiledView>,
    b: Seq<CompiledView>,
    t: TargetView,
    port: u16,
)
    ensures
        first_hit(a + b, t, port) == match first_hit(a, t, port) {
            Some(hit) => Some(hit),
            None => first_hit(b, t, port),
        },
    decreases a.len(),
{
    if a.len() == 0 {
        assert(a + b =~= b);
    } else {
        assert((a + b)[0] == a[0]);
        assert((a + b).skip(1) =~= a.skip(1) + b);
        lemma_first_hit_join(a.skip(1), b, t, port);
    }
}

/// No rule is for the target.
pub open spec fn unmatched(plan: PlanStepView) -> bool {
    plan matches PlanStepView::Ready(PlanView::Fallback { reason, .. }) && reason
        == "no whitelist rule matched"@
}

/// The target is kept from the tunnel by a rule of protocol class one.
pub open spec fn reserved(plan: PlanStepView) -> bool {
    plan matches PlanStepView::Ready(PlanView::Fallback { reserved_proto1, .. }) && reserved_proto1
}

/// The first rule that is for a target decides: if some of the first rules of a table is for
/// it, the plan is what these rules alone give, and if none is, it is what the others alone
/// give. A rule of protocol class one comes into play only where no other rule is for the
/// target.
#[verifier::rlimit(40)]
pub proof fn law_first_rule_decides(
    t: route_table::TableView,
    a: Seq<route_table::RuleView>,
    b: Seq<route_table::RuleView>,
    host: Seq<char>,
    port: u16,
)
    ensures
        ({
            let by_a = compiled_table(
                route_table::TableView { rules: a, ..t },
                Seq::empty(),
            ).plan_of(host, port);
            let by_b = compiled_table(
                route_table::TableView { rules: b, ..t },
                Seq::empty(),
            ).plan_of(host, port);
            let by_both = compiled_table(
                route_table::TableView { rules: a + b, ..t },
                Seq::empty(),
            ).plan_of(host, port);
            &&& unmatched(by_a) ==> by_both == by_b
            &&& !unmatched(by_a) && !reserved(by_a) ==> by_both == by_a
            &&& reserved(by_a) ==> by_both == if unmatched(by_b) || reserved(by_b) {
                by_a
            } else {
                by_b
            }
        }),
{
    let target = target_of(host);
    lemma_all_rules_join(a, b, false);
    lemma_all_rules_join(a, b, true);
    law_repeated_rules_do_not_matter(a, false, target, port);
    law_repeated_rules_do_not_matter(b, false, target, port);
    law_repeated_rules_do_not_matter(a + b, false, target, port);
    law_repeated_rules_do_not_matter(a, true, target, port);
    law_repeated_rules_do_not_matter(b, true, target, port);
    law_repeated_rules_do_not_matter(a + b, true, target, port);
    lemma_first_hit_join(all_rules(a, false), all_rules(b, false), target, port);
    lemma_first_hit_join(all_rules(a, true), all_rules(b, true), target, port);
    let none = Seq::<Seq<char>>::empty();
    let ma = compiled_table(route_table::TableView { rules: a, ..t }, none);
    let mb = compiled_table(route_table::TableView { rules: b, ..t }, none);
    let mab = compiled_table(route_table::TableView { rules: a + b, ..t }, none);
    assert(!extra_hits(ma.extra, target));
    lemma_rule_plans_match(ma, host, port);
    lemma_rule_plans_match(mb, host, port);
    lemma_rule_plans_match(mab, host, port);
}

#[verifier::rlimit(40)]
proof fn lemma_rule_plans_match(m: RouterView, host: Seq<char>, port: u16)
    requires
        !extra_hits(m.extra, target_of(host)),
    ensures
        first_hit(m.rules, target_of(host), port) is Some ==> !unmatched(m.plan_of(host, port))
            && !reserved(m.plan_of(host, port)),
        first_hit(m.rules, target_of(host), port) is None && first_hit(
            m.proto1_rules,
            target_of(host),
            port,
        ) is Some ==> !unmatched(m.plan_of(host, port)) && reserved(m.plan_of(host, port)),
        first_hit(m.rules, target_of(host), port) is None && first_hit(
            m.proto1_rules,
            target_of(host),
            port,
        ) is None ==> unmatched(m.plan_of(host, port)) && !reserved(m.plan_of(host, port)),
{
    reveal_strlit("no whitelist rule matched");
    reveal_strlit("hostname matched rc_id=");
    reveal_strlit("matched reserved proto=1 rule rc_id=");
    if let Some(rule) = first_hit(m.rules, target_of(host), port) {
        let reason = "hostname matched rc_id="@ + text::decimal(rule.rc_id as int)
            + " but dns map is missing and dnsserver is unavailable"@;
        assert(reason[0] == 'h');
        assert("no whitelist rule matched"@[0] == 'n');
    } else if let Some(rule) = first_hit(m.proto1_rules, target_of(host), port) {
        let reason = "matched reserved proto=1 rule rc_id="@ + text::decimal(rule.rc_id as int)
            + " name="@ + rule.rc_name
            + "; proto=1 is separated from normal routing and forced to fallback"@;
        assert(reason[0] == 'm');
        assert("no whitelist rule matched"@[0] == 'n');
    }
}

proof fn lemma_dots_come_off(x: Seq<char>, dots: Seq<char>)
    requires
        x.len() > 0 ==> x.last() != '.',
        forall|i: int| 0 <= i < dots.len() ==> #[trigger] dots[i] == '.',
    ensures
        text::trim_end_char(x + dots, '.') == x,
    decreases dots.len(),
{
    if dots.len() == 0 {
        assert(x + dots =~= x);
    } else {
        assert(dots[dots.len() - 1] == '.');
        assert((x + dots).last() == '.');
        assert((x + dots).drop_last() =~= x + dots.drop_last());
        lemma_dots_come_off(x, dots.drop_last());
    }
}

/// The name of a host is the host in small letters, without white space round it and without
/// dots at its end, and nothing else is taken off it.
pub proof fn law_names_of_hosts(w: Seq<char>, x: Seq<char>, dots: Seq<char>, v: Seq<char>)
    requires
        forall|i: int| 0 <= i < w.len() ==> text::is_white(#[trigger] w[i]),
        forall|i: int| 0 <= i < v.len() ==> text::is_white(#[trigger] v[i]),
        forall|i: int| 0 <= i < dots.len() ==> #[trigger] dots[i] == '.',
        x.len() > 0 ==> !text::is_white(x[0]) && !text::is_white(x.last()) && x.last() != '.',
    ensures
        domain_of(w + (x + dots) + v) == text::lowered(x),
{
    let core = x + dots;
    if core.len() > 0 {
        assert(core[0] == if x.len() > 0 {
            x[0]
        } else {
            dots[0]
        });
        assert(core.last() == if dots.len() > 0 {
            dots[dots.len() - 1]
        } else {
            x.last()
        });
    }
    text::law_trim_takes_white_space_off(w, core, v);
    lemma_dots_come_off(x, dots);
}

/// A host is an address if it is written as one, and a name otherwise.
pub proof fn law_hosts_are_addresses_or_names(ip: Ipv4Addr, host: Seq<char>)
    ensures
        target_of(ip.text()) == TargetView::Ipv4(ip),
        target_of(host) is Domain <==> addr::ipv4_text(text::trimmed(host)) is None,
        target_of(host) matches TargetView::Ipv4(found) ==> text::trimmed(host) == found.text(),
{
    addr::law_ipv4_text_is_read_back(ip);
    addr::lemma_ipv4_is_no_socket(ip);
    text::lemma_trimmed_already(ip.text());
    if let Some(found) = addr::ipv4_text(text::trimmed(host)) {
        addr::law_addresses_have_one_text(text::trimmed(host));
    }
}

/// The addresses of a host under a resource are those of the entries of that host and that
/// resource, in their order.
pub proof fn law_addresses_of_a_host(
    a: Seq<EntryView>,
    b: Seq<EntryView>,
    e: EntryView,
    rc_id: i32,
    host: Seq<char>,
)
    ensures
        host_ips(a + b, rc_id, host) == host_ips(a, rc_id, host) + host_ips(b, rc_id, host),
        e.rc_id == rc_id && e.host == host ==> host_ips(seq![e], rc_id, host) == seq![e.ip],
        e.rc_id != rc_id || e.host != host ==> host_ips(seq![e], rc_id, host).len() == 0,
    decreases b.len(),
{
    assert(seq![e].drop_last() =~= Seq::<EntryView>::empty());
    assert(host_ips(Seq::<EntryView>::empty(), rc_id, host) =~= Seq::<Ipv4Addr>::empty());
    assert(e.rc_id == rc_id && e.host == host ==> host_ips(seq![e], rc_id, host) =~= seq![e.ip]);
    if b.len() == 0 {
        assert(a + b =~= a);
        assert(host_ips(a, rc_id, host) + host_ips(b, rc_id, host) =~= host_ips(a, rc_id, host));
    } else {
        law_addresses_of_a_host(a, b.drop_last(), e, rc_id, host);
        assert((a + b).drop_last() =~= a + b.drop_last());
        assert(host_ips(a + b, rc_id, host) =~= host_ips(a, rc_id, host) + host_ips(
            b,
            rc_id,
            host,
        ));
    }
}

/// A plan that waited for a lookup dials the address that was found, at the port that was asked
/// for and under the resource of its rule, and says whether the address was kept or which
/// server gave it; if the lookup failed, the target goes round the tunnel as it was given.
pub proof fn law_lookups_end_in_plans(
    p: PendingView,
    ip: Ipv4Addr,
    server: SocketAddrView,
    e: EcErrorView,
)
    ensures
        ({
            let dial = ip.text() + ":"@ + text::decimal(p.port as int);
            &&& p.finished(
                Ok(dns_resolver::ResolvedView { ip, source: dns_resolver::SourceView::Cache }),
            ) == (PlanView::Remote {
                dial,
                rc_id: p.rc_id,
                rc_name: p.rc_name,
                source: RouteSourceView::DnsServerCache,
            })
            &&& p.finished(
                Ok(
                    dns_resolver::ResolvedView {
                        ip,
                        source: dns_resolver::SourceView::Server(server),
                    },
                ),
            ) == (PlanView::Remote {
                dial,
                rc_id: p.rc_id,
                rc_name: p.rc_name,
                source: RouteSourceView::DnsServerQuery(server),
            })
            &&& p.finished(Err(e)) matches PlanView::Fallback { target, reserved_proto1, .. }
                && !reserved_proto1 && target == p.host + ":"@ + text::decimal(p.port as int)
        }),
{
}

/// Without anything installed no target is planned; with a table it is the table that plans.
pub proof fn law_tables_plan_once_installed(m: RouterView, host: Seq<char>, port: u16)
    ensures
        RouterState::NotInitialized.plan_of(host, port) is Err,
        RouterState::Table(m).plan_of(host, port) == Ok::<PlanStepView, EcErrorView>(
            m.plan_of(host, port),
        ),
{
}

proof fn lemma_one_extra(t: route_table::TableView, raw: Seq<char>, host: Seq<char>, port: u16)
    ensures
        compiled_table(t, seq![raw]).plan_of(host, port) == match extra_of(raw) {
            Some(m) => if host_matches(m, target_of(host)) {
                PlanStepView::Ready(
                    remote_to(
                        target_of(host)->Ipv4_0,
                        port,
                        0,
                        "--extra"@,
                        RouteSourceView::ExtraIp,
                    ),
                )
            } else {
                compiled_table(t, Seq::empty()).plan_of(host, port)
            },
            None => compiled_table(t, Seq::empty()).plan_of(host, port),
        },
{
    let one = seq![raw];
    let nothing = Seq::<Seq<char>>::empty();
    assert(one.drop_last() =~= nothing);
    assert(extras_of(nothing) =~= Seq::<MatcherView>::empty());
    assert(!extra_hits(extras_of(nothing), target_of(host)));
    match extra_of(raw) {
        Some(m) => {
            assert(extras_of(one) =~= seq![m]);
            if host_matches(m, target_of(host)) {
                assert(extras_of(one)[0] == m);
                assert(extra_hits(extras_of(one), target_of(host)));
            } else {
                assert(!extra_hits(extras_of(one), target_of(host)));
            }
        },
        None => {
            assert(extras_of(one) =~= Seq::<MatcherView>::empty());
            assert(!extra_hits(extras_of(one), target_of(host)));
        },
    }
}

/// Where the plan for an address goes if an extra entry covers it.
pub open spec fn by_extra(ip: Ipv4Addr, port: u16) -> PlanStepView {
    PlanStepView::Ready(
        PlanView::Remote {
            dial: ip.text() + ":"@ + text::decimal(port as int),
            rc_id: 0,
            rc_name: "--extra"@,
            source: RouteSourceView::ExtraIp,
        },
    )
}

/// An extra entry that is an address sends this address through the tunnel, at every port; one
/// that is a range sends the addresses between its ends there, both of them in; and neither
/// changes the plan for any other target.
#[verifier::rlimit(40)]
pub proof fn law_extra_addresses_and_ranges(
    t: route_table::TableView,
    p: Seq<char>,
    q: Seq<char>,
    a: Ipv4Addr,
    b: Ipv4Addr,
    host: Seq<char>,
    ip: Ipv4Addr,
    port: u16,
)
    requires
        addr::ipv4_text(p) == Some(a),
        addr::ipv4_text(q) == Some(b),
        addr::ipv4_text(text::trimmed(host)) == Some(ip),
    ensures
        compiled_table(t, seq![p]).plan_of(host, port) == if ip.bits == a.bits {
            by_extra(ip, port)
        } else {
            compiled_table(t, Seq::empty()).plan_of(host, port)
        },
        compiled_table(t, seq![p + "~"@ + q]).plan_of(host, port) == if a.bits <= ip.bits <= b.bits
            || b.bits <= ip.bits <= a.bits {
            by_extra(ip, port)
        } else {
            compiled_table(t, Seq::empty()).plan_of(host, port)
        },
{
    let range = p + "~"@ + q;
    reveal_strlit("~");
    addr::lemma_ipv4_characters(p);
    addr::lemma_ipv4_characters(q);
    addr::law_addresses_have_one_text(p);
    addr::law_addresses_have_one_text(q);
    addr::lemma_ipv4_is_no_socket(a);
    addr::lemma_ipv4_is_no_socket(b);
    text::lemma_trimmed_already(p);
    text::lemma_trimmed_already(q);
    assert(range[0] == p[0] && range.last() == q.last());
    text::lemma_trimmed_already(range);
    assert(!p.contains('~') && !p.contains('/'));
    text::law_characters_are_found(p, '~', Seq::empty());
    text::law_characters_are_found(p, '/', Seq::empty());
    lemma_tilde_is_found(p, q);
    lemma_one_extra(t, p, host, port);
    lemma_one_extra(t, range, host, port);
}

proof fn lemma_block_is_power(n: nat)
    requires
        n <= 32,
    ensures
        block_size(n as int) == vstd::arithmetic::power2::pow2((32 - n) as nat),
    decreases 32 - n,
{
    if n == 32 {
        vstd::arithmetic::power2::lemma2_to64();
    } else {
        lemma_block_is_power(n + 1);
        vstd::arithmetic::power2::lemma_pow2_unfold((32 - n) as nat);
    }
}

proof fn lemma_same_block(x: int, y: int, size: int)
    requires
        x >= 0,
        y >= 0,
        size >= 1,
    ensures
        x / size == y / size <==> y / size * size <= x <= y / size * size + size - 1,
{
    let q = y / size;
    vstd::arithmetic::div_mod::lemma_fundamental_div_mod(x, size);
    vstd::arithmetic::div_mod::lemma_mod_bound(x, size);
    let r = x % size;
    let k = x / size;
    assert(x == size * k + r);
    assert(q * size == size * q) by (nonlinear_arith);
    if k == q {
    } else if k < q {
        assert(size * k + size <= size * q) by (nonlinear_arith)
            requires
                k + 1 <= q,
                size >= 1,
        ;
    } else {
        assert(size * q + size <= size * k) by (nonlinear_arith)
            requires
                q + 1 <= k,
                size >= 1,
        ;
    }
}

/// An extra entry that is a network, an address with the length of its prefix, sends those
/// addresses through the tunnel that agree with it in as many bits, counted from the highest,
/// and changes no other plan. A length above 32 makes no network.
#[verifier::rlimit(40)]
pub proof fn law_extra_networks(
    t: route_table::TableView,
    p: Seq<char>,
    a: Ipv4Addr,
    n: nat,
    host: Seq<char>,
    ip: Ipv4Addr,
    port: u16,
)
    requires
        addr::ipv4_text(p) == Some(a),
        addr::ipv4_text(text::trimmed(host)) == Some(ip),
    ensures
        compiled_table(t, seq![p + "/"@ + text::decimal(n as int)]).plan_of(host, port) == if n
            <= 32 && ip.bits as int / vstd::arithmetic::power2::pow2((32 - n) as nat) as int
            == a.bits as int / vstd::arithmetic::power2::pow2((32 - n) as nat) as int {
            by_extra(ip, port)
        } else {
            compiled_table(t, Seq::empty()).plan_of(host, port)
        },
{
    let d = text::decimal(n as int);
    let raw = p + "/"@ + d;
    reveal_strlit("/");
    addr::lemma_ipv4_characters(p);
    addr::law_addresses_have_one_text(p);
    addr::lemma_ipv4_is_no_socket(a);
    text::lemma_trimmed_already(p);
    text::law_digits_are_read_back(n, 10);
    text::lemma_digits_lack(n, 10, '~');
    assert(text::is_digit(d[0]) && text::is_digit(d[d.len() - 1]));
    text::lemma_trimmed_already(d);
    assert(raw[0] == p[0] && raw.last() == d.last());
    text::lemma_trimmed_already(raw);
    assert(!p.contains('~') && !p.contains('/'));
    assert(!raw.contains('~')) by {
        if raw.contains('~') {
            let i = choose|i: int| 0 <= i < raw.len() && raw[i] == '~';
            if i < p.len() {
                assert(p[i] == '~');
            } else if i > p.len() {
                assert(d[i - p.len() - 1] == '~');
            }
        }
    }
    text::law_characters_are_found(raw, '~', Seq::empty());
    text::law_characters_are_found(p, '/', d);
    assert(raw =~= p.push('/') + d);
    assert(raw.take(p.len() as int) =~= p);
    assert(raw.skip(p.len() as int + 1) =~= d);
    lemma_one_extra(t, raw, host, port);
    if n <= 32 {
        let size = block_size(n as int);
        lemma_block_is_power(n);
        lemma_block_size(n as int);
        lemma_network_fits(a.bits as int, size);
        lemma_same_block(ip.bits as int, a.bits as int, size);
        assert(extra_of(raw) == Some(network_of(a, n as int)));
    } else {
        assert(extra_of(raw) is None);
    }
}

proof fn lemma_extras_join(a: Seq<Seq<char>>, b: Seq<Seq<char>>)
    ensures
        extras_of(a + b) == extras_of(a) + extras_of(b),
    decreases b.len(),
{
    if b.len() == 0 {
        assert(a + b =~= a);
        assert(extras_of(a) + extras_of(b) =~= extras_of(a));
    } else {
        lemma_extras_join(a, b.drop_last());
        assert((a + b).drop_last() =~= a + b.drop_last());
        assert(extras_of(a + b) =~= extras_of(a) + extras_of(b));
    }
}

/// Extra entries add up: with those of two lists an address goes through the tunnel as an extra
/// one exactly if it does with those of the one or of the other; any other plan is as it is
/// without them.
#[verifier::rlimit(40)]
pub proof fn law_extra_entries_add_up(
    t: route_table::TableView,
    a: Seq<Seq<char>>,
    b: Seq<Seq<char>>,
    host: Seq<char>,
    ip: Ipv4Addr,
    port: u16,
)
    requires
        addr::ipv4_text(text::trimmed(host)) == Some(ip),
    ensures
        ({
            let by_a = compiled_table(t, a).plan_of(host, port);
            let by_b = compiled_table(t, b).plan_of(host, port);
            let by_both = compiled_table(t, a + b).plan_of(host, port);
            &&& by_both == if by_a == by_extra(ip, port) {
                by_a
            } else {
                by_b
            }
            &&& by_a == by_extra(ip, port) || by_a == compiled_table(t, Seq::empty()).plan_of(
                host,
                port,
            )
        }),
{
    let target = target_of(host);
    let x = extras_of(a);
    let y = extras_of(b);
    lemma_extras_join(a, b);
    let none = Seq::<Seq<char>>::empty();
    assert(extras_of(none) =~= Seq::<MatcherView>::empty());
    assert(!extra_hits(extras_of(none), target));
    assert(extra_hits(x + y, target) <==> extra_hits(x, target) || extra_hits(y, target)) by {
        if extra_hits(x, target) {
            let i = choose|i: int| 0 <= i < x.len() && host_matches(#[trigger] x[i], target);
            assert((x + y)[i] == x[i]);
        }
        if extra_hits(y, target) {
            let i = choose|i: int| 0 <= i < y.len() && host_matches(#[trigger] y[i], target);
            assert((x + y)[x.len() + i] == y[i]);
        }
        if extra_hits(x + y, target) {
            let i = choose|i: int|
                0 <= i < (x + y).len() && host_matches(#[trigger] (x + y)[i], target);
            if i < x.len() {
                assert(x[i] == (x + y)[i]);
            } else {
                assert(y[i - x.len()] == (x + y)[i]);
            }
        }
    }
    lemma_only_extra_is_extra(t, a, host, ip, port);
}

proof fn lemma_only_extra_is_extra(
    t: route_table::TableView,
    a: Seq<Seq<char>>,
    host: Seq<char>,
    ip: Ipv4Addr,
    port: u16,
)
    requires
        addr::ipv4_text(text::trimmed(host)) == Some(ip),
    ensures
        compiled_table(t, a).plan_of(host, port) == by_extra(ip, port) <==> extra_hits(
            extras_of(a),
            target_of(host),
        ),
{
}

/// The details of a table leave nothing out: they hold a line for every rule, then one for every
/// server, then one for every record and one for every extra entry, each in the order of the
/// table and with all that it says.
#[verifier::rlimit(40)]
pub proof fn law_details_leave_nothing_out(
    t: route_table::TableView,
    extra: Seq<Seq<char>>,
    r: route_table::RuleView,
    s: Seq<char>,
    d: route_table::RecordView,
    x: Seq<char>,
)
    ensures
        ({
            let none = route_table::empty_table();
            let no_extra = Seq::<Seq<char>>::empty();
            let rules = |v: Seq<route_table::RuleView>|
                table_text(route_table::TableView { rules: v, ..none }, no_extra);
            let servers = |v: Seq<Seq<char>>|
                table_text(route_table::TableView { dns_servers: v, ..none }, no_extra);
            let records = |v: Seq<route_table::RecordView>|
                table_text(route_table::TableView { dns_records: v, ..none }, no_extra);
            let extras = |v: Seq<Seq<char>>| table_text(none, v);
            &&& table_text(t, extra) == rules(t.rules) + servers(t.dns_servers) + records(
                t.dns_records,
            ) + extras(extra)
            &&& rules(t.rules.push(r)) == rules(t.rules) + ("rule rc_id="@ + text::decimal(
                r.rc_id as int,
            ) + " proto="@ + text::decimal(r.proto as int) + " name="@ + r.name + " host="@ + r.host
                + " port="@ + text::decimal(r.port.start as int) + "~"@ + text::decimal(
                r.port.end as int,
            ) + "\n"@)
            &&& servers(t.dns_servers.push(s)) == servers(t.dns_servers) + ("dns-server "@ + s
                + "\n"@)
            &&& records(t.dns_records.push(d)) == records(t.dns_records) + ("dns-record rc_id="@
                + text::decimal(d.rc_id as int) + " host="@ + d.host + " ip="@ + d.ip + "\n"@)
            &&& extras(extra.push(x)) == extras(extra) + ("extra "@ + x + "\n"@)
            &&& table_text(none, no_extra).len() == 0
        }),
{
    let none = route_table::empty_table();
    let no_extra = Seq::<Seq<char>>::empty();
    let nothing = Seq::<char>::empty();
    reveal_strlit("dns-server");
    reveal_strlit(" ");
    reveal_strlit("dns-server ");
    reveal_strlit("extra");
    reveal_strlit("extra ");
    assert(rule_lines(Seq::empty()) =~= nothing);
    assert(record_lines(Seq::empty()) =~= nothing);
    assert(labelled_lines("dns-server"@, no_extra) =~= nothing);
    assert(labelled_lines("extra"@, no_extra) =~= nothing);
    let a = rule_lines(t.rules);
    let b = labelled_lines("dns-server"@, t.dns_servers);
    let c = record_lines(t.dns_records);
    let e = labelled_lines("extra"@, extra);
    assert(nothing + nothing + nothing + nothing =~= nothing);
    assert forall|z: Seq<char>| #[trigger] (z + nothing) == z by {
        assert(z + nothing =~= z);
    }
    assert forall|z: Seq<char>| #[trigger] (nothing + z) == z by {
        assert(nothing + z =~= z);
    }
    assert(t.rules.push(r).drop_last() =~= t.rules);
    assert(t.dns_servers.push(s).drop_last() =~= t.dns_servers);
    assert(t.dns_records.push(d).drop_last() =~= t.dns_records);
    assert(extra.push(x).drop_last() =~= extra);
    assert("dns-server"@ + " "@ + s + "\n"@ =~= "dns-server "@ + s + "\n"@);
    assert("extra"@ + " "@ + x + "\n"@ =~= "extra "@ + x + "\n"@);
}

/// Sources are told apart by their names, and one that a server gave is told with the server.
#[verifier::rlimit(40)]
pub proof fn law_sources_are_told_apart(a: RouteSourceView, b: RouteSourceView, s: SocketAddrView)
    requires
        a.label() == b.label(),
    ensures
        a == b || (a.server() is Some && b.server() is Some),
        RouteSourceView::DnsServerQuery(s).description() == "dns-server("@ + s.text() + ")"@,
        RouteSourceView::ExtraIp.description() == "extra-ip"@,
        RouteSourceView::RouteTableUnavailable.description() == "route-table-unavailable"@,
{
    reveal_strlit("rule-ip");
    reveal_strlit("dns-map");
    reveal_strlit("dns-cache");
    reveal_strlit("dns-server");
    reveal_strlit("dns-data-ip-rule");
    reveal_strlit("cname-dns-cache");
    reveal_strlit("cname-dns-server");
    reveal_strlit("dns-cache-ip-rule");
    reveal_strlit("dns-server-ip-rule");
    reveal_strlit("extra-ip");
    reveal_strlit("route-table-unavailable");
    reveal_strlit("(");
    reveal_strlit("dns-server(");
    assert("dns-server"@ + "("@ + s.text() + ")"@ =~= "dns-server("@ + s.text() + ")"@);
    lemma_label_lengths(a);
    lemma_label_lengths(b);
}

proof fn lemma_label_lengths(a: RouteSourceView)
    ensures
        a.label().len() == match a {
            RouteSourceView::RuleIp => 7,
            RouteSourceView::DnsMap => 7,
            RouteSourceView::DnsServerCache => 9,
            RouteSourceView::DnsServerQuery(_) => 10,
            RouteSourceView::DnsDataIpRule => 16,
            RouteSourceView::CnameDnsServerCache => 15,
            RouteSourceView::CnameDnsServerQuery(_) => 16,
            RouteSourceView::DnsServerIpRuleCache => 17,
            RouteSourceView::DnsServerIpRuleQuery(_) => 18,
            RouteSourceView::ExtraIp => 8,
            RouteSourceView::RouteTableUnavailable => 23int,
        },
        a is RuleIp ==> a.label()[0] == 'r',
        a is DnsMap ==> a.label()[0] == 'd',
        a is DnsDataIpRule ==> a.label()[0] == 'd',
        a is CnameDnsServerQuery ==> a.label()[0] == 'c',
{
    reveal_strlit("rule-ip");
    reveal_strlit("dns-map");
    reveal_strlit("dns-cache");
    reveal_strlit("dns-server");
    reveal_strlit("dns-data-ip-rule");
    reveal_strlit("cname-dns-cache");
    reveal_strlit("cname-dns-server");
    reveal_strlit("dns-cache-ip-rule");
    reveal_strlit("dns-server-ip-rule");
    reveal_strlit("extra-ip");
    reveal_strlit("route-table-unavailable");
}

/// The lookup that a plan waits for asks for the name of its target, not for the target as it
/// was given, under the resource of its rule and at the servers of the table that can be asked,
/// the first of them first.
pub proof fn law_lookups_ask_for_the_name(
    m: RouterView,
    p: PendingView,
    cache: Map<(i32, Seq<char>), (Ipv4Addr, u64)>,
    now: u64,
)
    ensures
        ({
            let run = m.lookup_of(p, cache, now);
            let servers = dns_resolver::usable_servers(m.dns_servers);
            &&& run.lookup.rc_id == p.rc_id
            &&& run.lookup.host == p.domain
            &&& run.lookup.servers == servers
            &&& !cache.contains_key((p.rc_id, p.domain)) && servers.len() > 0 ==> run.step
                == dns_resolver::StepView::Ask(servers[0])
            &&& cache.contains_key((p.rc_id, p.domain)) && cache[(p.rc_id, p.domain)].1 > now
                ==> run.step == dns_resolver::StepView::Done(
                Ok(
                    dns_resolver::ResolvedView {
                        ip: cache[(p.rc_id, p.domain)].0,
                        source: dns_resolver::SourceView::Cache,
                    },
                ),
            )
        }),
{
}

/// An extra entry that is no address, no range of two addresses and no network of an address and
/// a number changes no plan.
#[verifier::rlimit(40)]
pub proof fn law_other_extra_entries_do_nothing(
    t: route_table::TableView,
    word: Seq<char>,
    p: Seq<char>,
    q: Seq<char>,
    i: int,
    host: Seq<char>,
    port: u16,
)
    requires
        !word.contains('~') && !word.contains('/'),
        addr::ipv4_text(word) is None,
        word.len() > 0 ==> !text::is_white(word[0]) && !text::is_white(word.last()),
        !p.contains('~') && !p.contains('/'),
        !q.contains('~'),
        p.len() > 0 && !text::is_white(p[0]),
        q.len() > 0 && !text::is_white(q.last()),
        0 <= i < q.len(),
    ensures
        ({
            let with = |raw: Seq<char>| compiled_table(t, seq![raw]).plan_of(host, port);
            let without = compiled_table(t, Seq::empty()).plan_of(host, port);
            let left = addr::ipv4_text(text::trimmed(p));
            let right = addr::ipv4_text(text::trimmed(q));
            &&& with(word) == without
            &&& left is None || right is None ==> with(p + "~"@ + q) == without
            &&& left is None ==> with(p + "/"@ + q) == without
            &&& !text::is_white(q[i]) && !('0' <= q[i] <= '9') ==> with(p + "/"@ + q) == without
        }),
{
    reveal_strlit("~");
    reveal_strlit("/");
    text::lemma_trimmed_already(word);
    text::law_characters_are_found(word, '~', Seq::empty());
    text::law_characters_are_found(word, '/', Seq::empty());
    lemma_one_extra(t, word, host, port);
    let range = p + "~"@ + q;
    assert(range[0] == p[0] && range.last() == q.last());
    text::lemma_trimmed_already(range);
    lemma_tilde_is_found(p, q);
    lemma_one_extra(t, range, host, port);
    let net = p + "/"@ + q;
    assert(net[0] == p[0] && net.last() == q.last());
    text::lemma_trimmed_already(net);
    text::lemma_framed_lacks(p, "/"@, q, '~');
    text::law_characters_are_found(net, '~', Seq::empty());
    text::law_characters_are_found(p, '/', q);
    assert(net =~= p.push('/') + q);
    assert(net.take(p.len() as int) =~= p);
    assert(net.skip(p.len() as int + 1) =~= q);
    lemma_one_extra(t, net, host, port);
    let n = text::trimmed(q);
    if addr::plain_number(n, 32) is Some {
        text::lemma_number_of_digits(n, 10);
        text::lemma_trimmed_or_white(q, i);
        if !text::is_white(q[i]) {
            let k = choose|k: int| 0 <= k < n.len() && n[k] == q[i];
            assert(text::digit_value(n[k], 10) is Some);
        }
    }
}

} // verus!
