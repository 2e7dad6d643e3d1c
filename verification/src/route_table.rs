//! The resource list of the gateway: which hosts and ports it serves, and what it says
//! about their names.

use quick_xml::events::Event;
use vstd::prelude::*;
use crate::endpoint;
use crate::error;
use crate::error::{EcError, EcErrorView, EcResult};
use crate::stream;
use crate::stream::ReadOutcome;
use crate::text;

verus! {

// ---------------------------------------------------------------------------
// The table
// ---------------------------------------------------------------------------

/// The resource list.
#[derive(Debug, Clone)]
pub struct RouteTable {
    pub rules: Vec<RouteRule>,
    pub dns_servers: Vec<String>,
    pub dns_records: Vec<DnsRecord>,
}

/// One host and port range of a resource.
#[derive(Debug, Clone)]
pub struct RouteRule {
    pub rc_id: i32,
    pub proto: i32,
    pub name: String,
    pub host: String,
    pub port: PortRange,
}

/// The ports from `start` to `end`, both of them in.
#[derive(Debug, Clone, Copy, PartialEq, Eq, Structural)]
pub struct PortRange {
    pub start: u16,
    pub end: u16,
}

/// The address that a resource gives to a host.
#[derive(Debug, Clone)]
pub struct DnsRecord {
    pub rc_id: i32,
    pub host: String,
    pub ip: String,
}

/// A rule as plain values.
#[verifier::ext_equal]
pub ghost struct RuleView {
    pub rc_id: i32,
    pub proto: i32,
    pub name: Seq<char>,
    pub host: Seq<char>,
    pub port: PortRange,
}

/// A record as plain values.
#[verifier::ext_equal]
pub ghost struct RecordView {
    pub rc_id: i32,
    pub host: Seq<char>,
    pub ip: Seq<char>,
}

/// A table as plain values.
#[verifier::ext_equal]
pub ghost struct TableView {
    pub rules: Seq<RuleView>,
    pub dns_servers: Seq<Seq<char>>,
    pub dns_records: Seq<RecordView>,
}

impl View for RouteRule {
    type V = RuleView;

    open spec fn view(&self) -> RuleView {
        RuleView {
            rc_id: self.rc_id,
            proto: self.proto,
            name: self.name@,
            host: self.host@,
            port: self.port,
        }
    }
}

impl View for DnsRecord {
    type V = RecordView;

    open spec fn view(&self) -> RecordView {
        RecordView { rc_id: self.rc_id, host: self.host@, ip: self.ip@ }
    }
}

impl View for RouteTable {
    type V = TableView;

    open spec fn view(&self) -> TableView {
        TableView {
            rules: text::views(self.rules@),
            dns_servers: text::views(self.dns_servers@),
            dns_records: text::views(self.dns_records@),
        }
    }
}

// ---------------------------------------------------------------------------
// Fields of the list
// ---------------------------------------------------------------------------

/// A host without scheme, path and surrounding white space.
pub open spec fn host_token(raw: Seq<char>) -> Seq<char> {
    text::trimmed(text::fields(endpoint::without_scheme(text::trimmed(raw)), '/')[0])
}

/// The hosts that the given fields name; those that name none are left out.
pub open spec fn hosts_of(f: Seq<Seq<char>>) -> Seq<Seq<char>>
    decreases f.len(),
{
    if f.len() == 0 {
        Seq::empty()
    } else {
        let before = hosts_of(f.drop_last());
        if host_token(f.last()).len() > 0 {
            before.push(host_token(f.last()))
        } else {
            before
        }
    }
}

/// A port, or two with a tilde between them.
pub open spec fn port_token(raw: Seq<char>) -> Option<PortRange> {
    let t = text::trimmed(raw);
    match text::first_of(t, '~') {
        Some(i) => match (
            text::u16_text(text::trimmed(t.take(i))),
            text::u16_text(text::trimmed(t.skip(i + 1))),
        ) {
            (Some(start), Some(end)) => Some(PortRange { start, end }),
            _ => None,
        },
        None => match text::u16_text(t) {
            Some(port) => Some(PortRange { start: port, end: port }),
            None => None,
        },
    }
}

/// The port ranges that the given fields name; those that name none are left out.
pub open spec fn ports_of(f: Seq<Seq<char>>) -> Seq<PortRange>
    decreases f.len(),
{
    if f.len() == 0 {
        Seq::empty()
    } else {
        let before = ports_of(f.drop_last());
        match port_token(f.last()) {
            Some(p) => before.push(p),
            None => before,
        }
    }
}

/// The fields that are more than white space, trimmed.
pub open spec fn nonblank(f: Seq<Seq<char>>) -> Seq<Seq<char>>
    decreases f.len(),
{
    if f.len() == 0 {
        Seq::empty()
    } else {
        let before = nonblank(f.drop_last());
        if text::trimmed(f.last()).len() > 0 {
            before.push(text::trimmed(f.last()))
        } else {
            before
        }
    }
}

/// `id:host:ip`, where the host may hold colons of its own.
pub open spec fn record_of(item: Seq<char>) -> Option<RecordView> {
    match text::first_of(item, ':') {
        None => None,
        Some(i) => {
            let rest = item.skip(i + 1);
            match text::last_of(rest, ':') {
                None => None,
                Some(j) => match text::i32_text(item.take(i)) {
                    Err(_) => None,
                    Ok(rc_id) => {
                        let host = host_token(rest.take(j));
                        let ip = text::trimmed(rest.skip(j + 1));
                        if host.len() == 0 || ip.len() == 0 {
                            None
                        } else {
                            Some(RecordView { rc_id, host, ip })
                        }
                    },
                },
            }
        },
    }
}

/// The records that the given fields hold; those that hold none are left out.
pub open spec fn records_of(f: Seq<Seq<char>>) -> Seq<RecordView>
    decreases f.len(),
{
    if f.len() == 0 {
        Seq::empty()
    } else {
        let before = records_of(f.drop_last());
        match record_of(text::trimmed(f.last())) {
            Some(r) => before.push(r),
            None => before,
        }
    }
}

fn normalize_host_token(raw: &[char]) -> (r: Vec<char>)
    ensures
        r@ == host_token(raw@),
{
    let t = text::trim(raw);
    let parts = text::split(endpoint::strip_http_scheme(t), '/');
    assert(text::views(parts@)[0] == parts@[0]@);
    let token = text::trim(parts[0].as_slice());
    vstd::slice::slice_to_vec(token)
}

/// The hosts of a list with semicolons between them.
pub fn split_hosts(raw: &str) -> (r: Vec<String>)
    ensures
        text::views(r@) == hosts_of(text::fields(raw@, ';')),
{
    let cs = text::chars_of(raw);
    let parts = text::split(cs.as_slice(), ';');
    let ghost f = text::fields(raw@, ';');
    let mut out: Vec<String> = Vec::new();
    assert(text::views(out@) =~= hosts_of(f.take(0)));
    for i in 0..parts.len()
        invariant
            f == text::views(parts@),
            text::views(out@) == hosts_of(f.take(i as int)),
    {
        assert(f.take(i + 1).drop_last() == f.take(i as int));
        assert(f.take(i + 1).last() == parts@[i as int]@);
        let host = normalize_host_token(parts[i].as_slice());
        if host.len() > 0 {
            let host_text = text::text_of(host.as_slice());
            proof {
                text::lemma_views_push(out@, host_text);
            }
            out.push(host_text);
        }
    }
    assert(f.take(f.len() as int) == f);
    out
}

fn parse_port_token(raw: &[char]) -> (r: Option<PortRange>)
    ensures
        r == port_token(raw@),
{
    let t = text::trim(raw);
    match text::find(t, '~') {
        Some(i) => {
            let start = text::parse_u16(text::trim(text::take(t, i)));
            let end = text::parse_u16(text::trim(text::behind(t, i)));
            match (start, end) {
                (Some(start), Some(end)) => Some(PortRange { start, end }),
                _ => None,
            }
        },
        None => match text::parse_u16(t) {
            Some(port) => Some(PortRange { start: port, end: port }),
            None => None,
        },
    }
}

/// The port ranges of a list with semicolons between them.
pub fn split_ports(raw: &str) -> (r: Vec<PortRange>)
    ensures
        r@ == ports_of(text::fields(raw@, ';')),
{
    let cs = text::chars_of(raw);
    let parts = text::split(cs.as_slice(), ';');
    let ghost f = text::fields(raw@, ';');
    let mut out: Vec<PortRange> = Vec::new();
    assert(out@ =~= ports_of(f.take(0)));
    for i in 0..parts.len()
        invariant
            f == text::views(parts@),
            out@ == ports_of(f.take(i as int)),
    {
        assert(f.take(i + 1).drop_last() == f.take(i as int));
        assert(f.take(i + 1).last() == parts@[i as int]@);
        match parse_port_token(parts[i].as_slice()) {
            Some(p) => {
                out.push(p);
            },
            None => {},
        }
    }
    assert(f.take(f.len() as int) == f);
    out
}

/// Adds the servers of a list with semicolons between them.
pub fn push_dns_servers(dns_servers: &mut Vec<String>, servers: &str)
    ensures
        text::views(final(dns_servers)@) == text::views(old(dns_servers)@) + nonblank(
            text::fields(servers@, ';'),
        ),
{
    let cs = text::chars_of(servers);
    let parts = text::split(cs.as_slice(), ';');
    let ghost f = text::fields(servers@, ';');
    let ghost start = text::views(dns_servers@);
    assert(start =~= start + nonblank(f.take(0)));
    for i in 0..parts.len()
        invariant
            f == text::views(parts@),
            text::views(dns_servers@) == start + nonblank(f.take(i as int)),
    {
        assert(f.take(i + 1).drop_last() == f.take(i as int));
        assert(f.take(i + 1).last() == parts@[i as int]@);
        let token = text::trim(parts[i].as_slice());
        if token.len() > 0 {
            let token_text = text::text_of(token);
            proof {
                text::lemma_views_push(dns_servers@, token_text);
            }
            dns_servers.push(token_text);
            assert(text::views(dns_servers@) =~= start + nonblank(f.take(i + 1)));
        }
    }
    assert(f.take(f.len() as int) == f);
}

/// The record that an item `id:host:ip` holds.
pub fn parse_dns_record_item(item: &str) -> (r: Option<DnsRecord>)
    ensures
        text::shown(r) == record_of(item@),
{
    let cs = text::chars_of(item);
    parse_record(cs.as_slice())
}

fn parse_record(item: &[char]) -> (r: Option<DnsRecord>)
    ensures
        text::shown(r) == record_of(item@),
{
    match text::find(item, ':') {
        None => None,
        Some(i) => {
            let rest = text::behind(item, i);
            match text::rfind(rest, ':') {
                None => None,
                Some(j) => match text::parse_i32(text::take(item, i)) {
                    Err(_) => None,
                    Ok(rc_id) => {
                        let host = normalize_host_token(text::take(rest, j));
                        let ip = text::trim(text::behind(rest, j));
                        if host.len() == 0 || ip.len() == 0 {
                            None
                        } else {
                            Some(
                                DnsRecord {
                                    rc_id,
                                    host: text::text_of(host.as_slice()),
                                    ip: text::text_of(ip),
                                },
                            )
                        }
                    },
                },
            }
        },
    }
}

// ---------------------------------------------------------------------------
// XML
// ---------------------------------------------------------------------------

/// The pull parser of `quick_xml`.
#[verifier::external_type_specification]
#[verifier::external_body]
#[verifier::reject_recursive_types(R)]
pub struct ExReader<R>(quick_xml::Reader<R>);

/// What the parser reports, as far as the list needs it.
#[derive(Debug, Clone)]
pub enum XmlEvent {
    /// A tag that opens an element, closed at once or not.
    Element { name: Vec<u8>, attributes: Vec<XmlAttribute> },
    /// The end of the document.
    Eof,
    /// Anything else.
    Other,
    /// The document is broken, in the parser's words.
    Broken(String),
}

/// One attribute of a tag.
#[derive(Debug, Clone)]
pub enum XmlAttribute {
    /// A key with its decoded value.
    Pair { key: Vec<u8>, value: String },
    /// The attribute is malformed, in the parser's words.
    BadSyntax(String),
    /// The value cannot be decoded, in the parser's words.
    BadValue(String),
}

/// An event as plain values.
#[verifier::ext_equal]
pub ghost enum EventView {
    Element { name: Seq<u8>, attributes: Seq<AttributeView> },
    Eof,
    Other,
    Broken(Seq<char>),
}

/// An attribute as plain values.
#[verifier::ext_equal]
pub ghost enum AttributeView {
    Pair { key: Seq<u8>, value: Seq<char> },
    BadSyntax(Seq<char>),
    BadValue(Seq<char>),
}

impl View for XmlAttribute {
    type V = AttributeView;

    open spec fn view(&self) -> AttributeView {
        match self {
            XmlAttribute::Pair { key, value } => AttributeView::Pair { key: key@, value: value@ },
            XmlAttribute::BadSyntax(m) => AttributeView::BadSyntax(m@),
            XmlAttribute::BadValue(m) => AttributeView::BadValue(m@),
        }
    }
}

impl View for XmlEvent {
    type V = EventView;

    open spec fn view(&self) -> EventView {
        match self {
            XmlEvent::Element { name, attributes } => EventView::Element {
                name: name@,
                attributes: text::views(attributes@),
            },
            XmlEvent::Eof => EventView::Eof,
            XmlEvent::Other => EventView::Other,
            XmlEvent::Broken(m) => EventView::Broken(m@),
        }
    }
}

/// What `quick_xml` reports of a text, up to and with the first end of document or error;
/// text between tags is trimmed, and attributes are not checked for double keys.
pub uninterp spec fn xml_events(text: Seq<char>) -> Seq<EventView>;

/// What a parser has still to report, up to and with the first end of document or error.
pub uninterp spec fn events_left(reader: quick_xml::Reader<&[u8]>) -> Seq<EventView>;

/// The event ends the reading.
pub open spec fn is_final(e: EventView) -> bool {
    e is Eof || e is Broken
}

/// Events of which the last, and no other, ends the reading.
pub open spec fn ends_once(events: Seq<EventView>) -> bool {
    &&& events.len() > 0
    &&& is_final(events.last())
    &&& forall|i: int| 0 <= i < events.len() - 1 ==> !is_final(#[trigger] events[i])
}

/// `Reader::from_str` of `quick_xml`, with `trim_text` switched on in the parser's settings:
/// the parser has the events of the text still to report. They are finitely many, since each
/// of them but the last consumes some of the text, and the last is the end of document or an
/// error.
#[verifier::external_body]
fn open_xml(xml: &str) -> (r: quick_xml::Reader<&[u8]>)
    ensures
        events_left(r) == xml_events(xml@),
        ends_once(events_left(r)),
{
    let mut reader = quick_xml::Reader::from_str(xml);
    reader.config_mut().trim_text(true);
    reader
}

/// `Reader::read_event_into` of `quick_xml`: hands out the next event. A tag comes with its
/// name and, in their order, its attributes, each with the value that
/// `decode_and_unescape_value` gives it. Nothing is said of what the parser has left to report
/// behind the end of document or an error: it repeats the one, and may go on after the other.
#[verifier::external_body]
fn next_event(reader: &mut quick_xml::Reader<&[u8]>) -> (r: XmlEvent)
    requires
        events_left(*old(reader)).len() > 0,
    ensures
        r@ == events_left(*old(reader))[0],
        !is_final(events_left(*old(reader))[0]) ==> events_left(*final(reader)) == events_left(
            *old(reader),
        ).skip(1),
{
    match reader.read_event_into(&mut Vec::new()) {
        Ok(Event::Start(e) | Event::Empty(e)) => XmlEvent::Element {
            name: e.name().0.to_vec(),
            attributes: e.attributes().with_checks(false).map(|a| match a {
                Ok(a) => match a.decode_and_unescape_value(reader.decoder()) {
                    Ok(v) => XmlAttribute::Pair { key: a.key.0.to_vec(), value: v.into_owned() },
                    Err(e) => XmlAttribute::BadValue(e.to_string()),
                },
                Err(e) => XmlAttribute::BadSyntax(e.to_string()),
            }).collect(),
        },
        Ok(Event::Eof) => XmlEvent::Eof,
        Ok(_) => XmlEvent::Other,
        Err(e) => XmlEvent::Broken(e.to_string()),
    }
}

/// The first attribute that could not be read, as an error.
pub open spec fn attribute_failure(a: Seq<AttributeView>) -> Option<EcErrorView>
    decreases a.len(),
{
    if a.len() == 0 {
        None
    } else {
        match attribute_failure(a.drop_last()) {
            Some(e) => Some(e),
            None => match a.last() {
                AttributeView::Pair { .. } => None,
                AttributeView::BadSyntax(m) => Some(
                    EcErrorView::Runtime("xml attr parse failed: "@ + m),
                ),
                AttributeView::BadValue(m) => Some(
                    EcErrorView::Runtime("xml attr decode failed: "@ + m),
                ),
            },
        }
    }
}

/// The value of the last attribute with the given key.
pub open spec fn attribute(a: Seq<AttributeView>, key: Seq<char>) -> Option<Seq<char>>
    decreases a.len(),
{
    if a.len() == 0 {
        None
    } else {
        match a.last() {
            AttributeView::Pair { key: k, value } if k == vstd::utf8::encode_utf8(key) => Some(
                value,
            ),
            _ => attribute(a.drop_last(), key),
        }
    }
}

/// The rules of one resource: hosts and ports side by side, the shorter list drawn out by
/// its last item.
pub open spec fn resource_rules(
    rc_id: i32,
    name: Seq<char>,
    hosts: Seq<Seq<char>>,
    ports: Seq<PortRange>,
) -> Seq<RuleView> {
    if hosts.len() == 0 || ports.len() == 0 {
        Seq::empty()
    } else {
        Seq::new(
            if hosts.len() >= ports.len() {
                hosts.len()
            } else {
                ports.len()
            },
            |i: int|
                RuleView {
                    rc_id,
                    proto: 0,
                    name,
                    host: if i < hosts.len() {
                        hosts[i]
                    } else {
                        hosts.last()
                    },
                    port: if i < ports.len() {
                        ports[i]
                    } else {
                        ports.last()
                    },
                },
        )
    }
}

/// The rules that a tag `Rc` adds.
pub open spec fn rc_rules(a: Seq<AttributeView>) -> Result<Seq<RuleView>, EcErrorView> {
    match attribute_failure(a) {
        Some(e) => Err(e),
        None => match (attribute(a, "id"@), attribute(a, "host"@), attribute(a, "port"@)) {
            (Some(id), Some(host), Some(port)) => match text::i32_text(id) {
                Err(e) => Err(
                    EcErrorView::Runtime("invalid rc id '"@ + id + "': "@ + e.text()),
                ),
                Ok(rc_id) => Ok(
                    resource_rules(
                        rc_id,
                        attribute(a, "name"@).unwrap_or(Seq::empty()),
                        hosts_of(text::fields(host, ';')),
                        ports_of(text::fields(port, ';')),
                    ),
                ),
            },
            _ => Ok(Seq::empty()),
        },
    }
}

/// The servers and records that a tag `Dns` adds.
pub open spec fn dns_entries(a: Seq<AttributeView>) -> Result<
    (Seq<Seq<char>>, Seq<RecordView>),
    EcErrorView,
> {
    match attribute_failure(a) {
        Some(e) => Err(e),
        None => Ok(
            (
                match attribute(a, "dnsserver"@) {
                    Some(servers) => nonblank(text::fields(servers, ';')),
                    None => Seq::empty(),
                },
                match attribute(a, "data"@) {
                    Some(data) => records_of(text::fields(data, ';')),
                    None => Seq::empty(),
                },
            ),
        ),
    }
}

/// The table once an event that does not end the reading has been taken in.
pub open spec fn table_with(t: TableView, e: EventView) -> Result<TableView, EcErrorView> {
    match e {
        EventView::Element { name, attributes } => if name == vstd::utf8::encode_utf8("Rc"@) {
            match rc_rules(attributes) {
                Err(e) => Err(e),
                Ok(rules) => Ok(TableView { rules: t.rules + rules, ..t }),
            }
        } else if name == vstd::utf8::encode_utf8("Dns"@) {
            match dns_entries(attributes) {
                Err(e) => Err(e),
                Ok((servers, records)) => Ok(
                    TableView {
                        dns_servers: t.dns_servers + servers,
                        dns_records: t.dns_records + records,
                        ..t
                    },
                ),
            }
        } else {
            Ok(t)
        },
        EventView::Broken(m) => Err(EcErrorView::Runtime("rclist xml parse failed: "@ + m)),
        EventView::Eof => Ok(t),
        EventView::Other => Ok(t),
    }
}

/// The table once all the events have been taken in, or the first error.
pub open spec fn table_after(t: TableView, events: Seq<EventView>) -> Result<
    TableView,
    EcErrorView,
>
    decreases events.len(),
{
    if events.len() == 0 {
        Ok(t)
    } else {
        match table_with(t, events[0]) {
            Err(e) => Err(e),
            Ok(next) => table_after(next, events.skip(1)),
        }
    }
}

/// The table with nothing in it.
pub open spec fn empty_table() -> TableView {
    TableView { rules: Seq::empty(), dns_servers: Seq::empty(), dns_records: Seq::empty() }
}

fn is_key(key: &Vec<u8>, name: &str) -> (r: bool)
    ensures
        r == (key@ == vstd::utf8::encode_utf8(name@)),
{
    let bytes = name.as_bytes();
    if key.len() != bytes.len() {
        return false;
    }
    for i in 0..key.len()
        invariant
            key@.len() == bytes@.len(),
            bytes@ == vstd::utf8::encode_utf8(name@),
            forall|j: int| 0 <= j < i ==> key@[j] == bytes@[j],
    {
        if key[i] != bytes[i] {
            assert(key@[i as int] != bytes@[i as int]);
            return false;
        }
    }
    assert(key@ =~= bytes@);
    true
}

/// The value of the last attribute with the given key, where all of them could be read.
fn find_attribute(attributes: &Vec<XmlAttribute>, name: &str) -> (r: Option<String>)
    ensures
        text::shown(r) == attribute(text::views(attributes@), name@),
{
    let ghost a = text::views(attributes@);
    let mut i: usize = attributes.len();
    assert(a.take(i as int) == a);
    while i > 0
        invariant
            i <= a.len(),
            a == text::views(attributes@),
            attribute(a, name@) == attribute(a.take(i as int), name@),
        decreases i,
    {
        assert(a.take(i as int).drop_last() == a.take(i - 1));
        assert(a.take(i as int).last() == attributes@[i - 1]@);
        i = i - 1;
        match &attributes[i] {
            XmlAttribute::Pair { key, value } => {
                if is_key(key, name) {
                    return Some(value.clone());
                }
            },
            _ => {},
        }
    }
    None
}

fn check_attributes(attributes: &Vec<XmlAttribute>) -> (r: EcResult<()>)
    ensures
        match r {
            Ok(_) => attribute_failure(text::views(attributes@)) is None,
            Err(e) => attribute_failure(text::views(attributes@)) == Some(e@),
        },
{
    let ghost a = text::views(attributes@);
    for i in 0..attributes.len()
        invariant
            a == text::views(attributes@),
            attribute_failure(a.take(i as int)) is None,
    {
        assert(a.take(i + 1).drop_last() == a.take(i as int));
        assert(a.take(i + 1).last() == attributes@[i as int]@);
        let ghost failure = attribute_failure(a.take(i + 1));
        proof {
            if failure is Some {
                lemma_failure_stays(a, i + 1);
            }
        }
        match &attributes[i] {
            XmlAttribute::Pair { .. } => {},
            XmlAttribute::BadSyntax(m) => {
                return Err(
                    EcError::Runtime("xml attr parse failed: ".to_owned().concat(m.as_str())),
                );
            },
            XmlAttribute::BadValue(m) => {
                return Err(
                    EcError::Runtime("xml attr decode failed: ".to_owned().concat(m.as_str())),
                );
            },
        }
    }
    assert(a.take(a.len() as int) == a);
    Ok(())
}

proof fn lemma_failure_stays(a: Seq<AttributeView>, i: int)
    requires
        0 <= i <= a.len(),
        attribute_failure(a.take(i)) is Some,
    ensures
        attribute_failure(a) == attribute_failure(a.take(i)),
    decreases a.len(),
{
    if i < a.len() {
        assert(a.drop_last().take(i) == a.take(i));
        lemma_failure_stays(a.drop_last(), i);
    } else {
        assert(a.take(i) == a);
    }
}

/// Adds the rules of a tag `Rc` with the given attributes.
pub fn parse_rc(attributes: &Vec<XmlAttribute>, rules: &mut Vec<RouteRule>) -> (r: EcResult<()>)
    ensures
        match (r, rc_rules(text::views(attributes@))) {
            (Ok(_), Ok(added)) => text::views(final(rules)@) == text::views(old(rules)@) + added,
            (Err(e), Err(f)) => e@ == f && final(rules)@ == old(rules)@,
            _ => false,
        },
{
    let ghost start = text::views(rules@);
    match check_attributes(attributes) {
        Err(e) => {
            return Err(e);
        },
        Ok(_) => {},
    }
    let id_raw = find_attribute(attributes, "id");
    let host_raw = find_attribute(attributes, "host");
    let port_raw = find_attribute(attributes, "port");
    let name = match find_attribute(attributes, "name") {
        Some(n) => n,
        None => String::new(),
    };
    assert(start =~= start + Seq::<RuleView>::empty());
    match (id_raw, host_raw, port_raw) {
        (Some(id_raw), Some(host_raw), Some(port_raw)) => {
            let id_chars = text::chars_of(id_raw.as_str());
            let rc_id: i32 = match text::parse_i32(id_chars.as_slice()) {
                Ok(v) => v,
                Err(e) => {
                    let why = e.message();
                    return Err(
                        EcError::Runtime(
                            "invalid rc id '".to_owned().concat(id_raw.as_str()).concat(
                                "': ",
                            ).concat(why.as_str()),
                        ),
                    );
                },
            };
            let hosts = split_hosts(host_raw.as_str());
            let ports = split_ports(port_raw.as_str());
            let ghost added = resource_rules(rc_id, name@, text::views(hosts@), ports@);
            if hosts.len() == 0 || ports.len() == 0 {
                return Ok(());
            }
            let width: usize = if hosts.len() >= ports.len() {
                hosts.len()
            } else {
                ports.len()
            };
            assert(text::views(rules@) =~= start + added.take(0));
            for i in 0..width
                invariant
                    hosts@.len() > 0,
                    ports@.len() > 0,
                    width == added.len(),
                    added == resource_rules(rc_id, name@, text::views(hosts@), ports@),
                    text::views(rules@) == start + added.take(i as int),
            {
                let h: usize = if i < hosts.len() {
                    i
                } else {
                    hosts.len() - 1
                };
                let p: usize = if i < ports.len() {
                    i
                } else {
                    ports.len() - 1
                };
                let rule = RouteRule {
                    rc_id,
                    proto: 0,
                    name: name.clone(),
                    host: hosts[h].clone(),
                    port: ports[p],
                };
                assert(rule@ == added[i as int]);
                proof {
                    text::lemma_views_push(rules@, rule);
                }
                rules.push(rule);
                assert(text::views(rules@) =~= start + added.take(i + 1));
            }
            assert(added.take(width as int) == added);
            Ok(())
        },
        _ => Ok(()),
    }
}

/// Adds the servers and records of a tag `Dns` with the given attributes.
pub fn parse_dns(
    attributes: &Vec<XmlAttribute>,
    dns_servers: &mut Vec<String>,
    dns_records: &mut Vec<DnsRecord>,
) -> (r: EcResult<()>)
    ensures
        match (r, dns_entries(text::views(attributes@))) {
            (Ok(_), Ok((servers, records))) => {
                &&& text::views(final(dns_servers)@) == text::views(old(dns_servers)@) + servers
                &&& text::views(final(dns_records)@) == text::views(old(dns_records)@) + records
            },
            (Err(e), Err(f)) => {
                &&& e@ == f
                &&& final(dns_servers)@ == old(dns_servers)@
                &&& final(dns_records)@ == old(dns_records)@
            },
            _ => false,
        },
{
    let ghost servers_before = text::views(dns_servers@);
    let ghost records_before = text::views(dns_records@);
    match check_attributes(attributes) {
        Err(e) => {
            return Err(e);
        },
        Ok(_) => {},
    }
    assert(servers_before =~= servers_before + Seq::<Seq<char>>::empty());
    assert(records_before =~= records_before + Seq::<RecordView>::empty());
    match find_attribute(attributes, "dnsserver") {
        Some(servers) => {
            push_dns_servers(dns_servers, servers.as_str());
        },
        None => {},
    }
    match find_attribute(attributes, "data") {
        Some(data) => {
            let cs = text::chars_of(data.as_str());
            let parts = text::split(cs.as_slice(), ';');
            let ghost f = text::fields(data@, ';');
            assert(records_before =~= records_before + records_of(f.take(0)));
            for i in 0..parts.len()
                invariant
                    f == text::views(parts@),
                    text::views(dns_records@) == records_before + records_of(f.take(i as int)),
            {
                assert(f.take(i + 1).drop_last() == f.take(i as int));
                assert(f.take(i + 1).last() == parts@[i as int]@);
                match parse_record(text::trim(parts[i].as_slice())) {
                    Some(record) => {
                        proof {
                            text::lemma_views_push(dns_records@, record);
                        }
                        dns_records.push(record);
                        assert(text::views(dns_records@) =~= records_before + records_of(
                            f.take(i + 1),
                        ));
                    },
                    None => {},
                }
            }
            assert(f.take(f.len() as int) == f);
        },
        None => {},
    }
    Ok(())
}

/// Takes an event into the table; says whether the reading goes on.
pub fn take_event(table: &mut RouteTable, event: &XmlEvent) -> (r: EcResult<bool>)
    ensures
        match (r, table_with(old(table)@, event@)) {
            (Ok(more), Ok(next)) => final(table)@ == next && more == !is_final(event@),
            (Err(e), Err(f)) => e@ == f && final(table)@ == old(table)@,
            _ => false,
        },
{
    match event {
        XmlEvent::Element { name, attributes } => {
            if is_key(name, "Rc") {
                match parse_rc(attributes, &mut table.rules) {
                    Err(e) => Err(e),
                    Ok(_) => Ok(true),
                }
            } else if is_key(name, "Dns") {
                match parse_dns(attributes, &mut table.dns_servers, &mut table.dns_records) {
                    Err(e) => Err(e),
                    Ok(_) => Ok(true),
                }
            } else {
                Ok(true)
            }
        },
        XmlEvent::Eof => Ok(false),
        XmlEvent::Other => Ok(true),
        XmlEvent::Broken(m) => Err(
            EcError::Runtime("rclist xml parse failed: ".to_owned().concat(m.as_str())),
        ),
    }
}

/// The table that an XML text holds.
pub fn parse_route_table_xml(xml: &str) -> (r: EcResult<RouteTable>)
    ensures
        error::shown(r) == table_after(empty_table(), xml_events(xml@)),
{
    let mut reader = open_xml(xml);
    let mut table = RouteTable {
        rules: Vec::new(),
        dns_servers: Vec::new(),
        dns_records: Vec::new(),
    };
    assert(table@ =~= empty_table());
    let ghost whole = table_after(empty_table(), xml_events(xml@));
    loop
        invariant
            ends_once(events_left(reader)),
            table_after(table@, events_left(reader)) == whole,
            whole == table_after(empty_table(), xml_events(xml@)),
        decreases events_left(reader).len(),
    {
        let ghost left = events_left(reader);
        let event = next_event(&mut reader);
        assert(left[0] == event@);
        match take_event(&mut table, &event) {
            Err(e) => {
                return Err(e);
            },
            Ok(more) => {
                if !more {
                    assert(left.len() == 1) by {
                        if left.len() > 1 {
                            assert(!is_final(left[0]));
                        }
                    }
                    assert(left.skip(1).len() == 0);
                    return Ok(table);
                }
                assert(left.len() > 1) by {
                    if left.len() == 1 {
                        assert(left.last() == left[0]);
                    }
                }
                assert(ends_once(left.skip(1))) by {
                    assert(left.skip(1).last() == left.last());
                    assert forall|i: int| 0 <= i < left.skip(1).len() - 1 implies !is_final(
                        #[trigger] left.skip(1)[i],
                    ) by {
                        assert(left.skip(1)[i] == left[i + 1]);
                    }
                }
            },
        }
    }
}

// ---------------------------------------------------------------------------
// The exchange with the gateway
// ---------------------------------------------------------------------------

/// Where the list is asked for, and in which words.
#[derive(Debug)]
pub struct RouteTableRequest {
    /// What to connect to.
    pub authority: String,
    /// The host of the TLS handshake.
    pub host: String,
    /// The HTTP request.
    pub request: String,
}

/// The HTTP request for the list.
pub open spec fn request_text(authority: Seq<char>, twf_id: Seq<char>) -> Seq<char> {
    "GET /por/rclist.csp HTTP/1.1\r\nHost: "@ + authority + "\r\nCookie: TWFID="@ + twf_id
        + "\r\nConnection: close\r\n\r\n"@
}

/// Where the list of a server is asked for, and in which words.
pub fn route_table_request(server: &str, twf_id: &str) -> (r: EcResult<RouteTableRequest>)
    ensures
        match (r, endpoint::endpoint_of(server@)) {
            (Ok(q), Ok((authority, host))) => {
                &&& q.authority@ == authority
                &&& q.host@ == host
                &&& q.request@ == request_text(authority, twf_id@)
            },
            (Err(e), Err(f)) => e@ == f,
            _ => false,
        },
{
    match endpoint::parse_server(server) {
        Err(e) => Err(e),
        Ok((authority, host)) => {
            let request = "GET /por/rclist.csp HTTP/1.1\r\nHost: ".to_owned().concat(
                authority.as_str(),
            ).concat("\r\nCookie: TWFID=").concat(twf_id).concat(
                "\r\nConnection: close\r\n\r\n",
            );
            Ok(RouteTableRequest { authority, host, request })
        },
    }
}

/// Takes one read of the response in; says whether there is more to read.
pub fn take_response(raw: &mut Vec<u8>, read: ReadOutcome) -> (r: EcResult<bool>)
    ensures
        match read {
            ReadOutcome::Eof => r matches Ok(more) && !more && final(raw)@ == old(raw)@,
            ReadOutcome::TimedOut => r matches Ok(more) && !more && final(raw)@ == old(raw)@,
            ReadOutcome::Data(bytes) => r matches Ok(more) && more && final(raw)@ == old(raw)@
                + bytes@,
            ReadOutcome::Failed(m) => {
                &&& r matches Err(e)
                &&& e@ == EcErrorView::Runtime("rclist response read failed: "@ + m@)
                &&& final(raw)@ == old(raw)@
            },
        },
        final(raw)@ == old(raw)@ + stream::received(read),
{
    match read {
        ReadOutcome::Eof => Ok(false),
        ReadOutcome::TimedOut => Ok(false),
        ReadOutcome::Data(bytes) => {
            let mut bytes = bytes;
            raw.append(&mut bytes);
            Ok(true)
        },
        ReadOutcome::Failed(m) => Err(
            EcError::Runtime("rclist response read failed: ".to_owned().concat(m.as_str())),
        ),
    }
}

/// Where the XML of a response begins: at its declaration, or else at the root element.
pub open spec fn payload_start(response: Seq<char>) -> Option<int> {
    match text::first_text(response, "<?xml"@) {
        Some(i) => Some(i),
        None => text::first_text(response, "<Resource>"@),
    }
}

/// The XML of a response.
pub open spec fn payload_of(response: Seq<char>) -> Result<Seq<char>, EcErrorView> {
    match payload_start(response) {
        Some(i) => Ok(response.skip(i)),
        None => Err(EcErrorView::Runtime("rclist response does not contain XML payload"@)),
    }
}

/// The XML of a response.
pub fn extract_xml_payload(response_text: &str) -> (r: EcResult<&str>)
    ensures
        error::shown(r) == payload_of(response_text@),
{
    let cs = text::chars_of(response_text);
    let declaration = text::chars_of("<?xml");
    let start = match text::find_text(cs.as_slice(), declaration.as_slice()) {
        Some(i) => Some(i),
        None => {
            let root = text::chars_of("<Resource>");
            text::find_text(cs.as_slice(), root.as_slice())
        },
    };
    match start {
        Some(i) => {
            let rest = response_text.substring_char(i, cs.len());
            assert(rest@ =~= response_text@.skip(i as int));
            Ok(rest)
        },
        None => Err(
            EcError::Runtime("rclist response does not contain XML payload".to_owned()),
        ),
    }
}

/// The table that a response holds.
pub open spec fn table_of_response(response: Seq<char>) -> Result<TableView, EcErrorView> {
    match payload_of(response) {
        Err(e) => Err(e),
        Ok(xml) => table_after(empty_table(), xml_events(xml)),
    }
}

/// The table that the gateway answered with.
pub fn fetch_route_table(raw: &[u8]) -> (r: EcResult<RouteTable>)
    ensures
        error::shown(r) == if raw@.len() == 0 {
            Err(EcErrorView::Runtime("rclist response is empty or timed out"@))
        } else {
            table_of_response(text::lossy_text(raw@))
        },
{
    if raw.len() == 0 {
        return Err(EcError::Runtime("rclist response is empty or timed out".to_owned()));
    }
    let response = text::from_utf8_lossy(raw);
    match extract_xml_payload(response.as_str()) {
        Err(e) => Err(e),
        Ok(xml) => parse_route_table_xml(xml),
    }
}

// ---------------------------------------------------------------------------
// Laws
// ---------------------------------------------------------------------------

/// Every host and every port range of a resource stands in some rule of it, in its order, and
/// there are no more rules than that takes.
pub proof fn law_no_host_or_port_is_lost(
    rc_id: i32,
    name: Seq<char>,
    hosts: Seq<Seq<char>>,
    ports: Seq<PortRange>,
)
    requires
        hosts.len() > 0,
        ports.len() > 0,
    ensures
        ({
            let rules = resource_rules(rc_id, name, hosts, ports);
            &&& rules.len() == hosts.len() || rules.len() == ports.len()
            &&& rules.len() >= hosts.len() && rules.len() >= ports.len()
            &&& forall|i: int| 0 <= i < hosts.len() ==> (#[trigger] rules[i]).host == hosts[i]
            &&& forall|i: int| 0 <= i < ports.len() ==> (#[trigger] rules[i]).port == ports[i]
            &&& forall|i: int|
                0 <= i < rules.len() ==> hosts.contains((#[trigger] rules[i]).host)
                    && ports.contains(rules[i].port) && rules[i].rc_id == rc_id
        }),
{
    let rules = resource_rules(rc_id, name, hosts, ports);
    assert forall|i: int| 0 <= i < rules.len() implies hosts.contains((#[trigger] rules[i]).host)
        && ports.contains(rules[i].port) && rules[i].rc_id == rc_id by {
        assert(rules[i].host == hosts[if i < hosts.len() {
            i
        } else {
            hosts.len() - 1
        }]);
        assert(rules[i].port == ports[if i < ports.len() {
            i
        } else {
            ports.len() - 1
        }]);
    }
}

/// The events of two documents, one behind the other, are taken into the table as those of the
/// one and then those of the other; the first error ends it.
pub proof fn law_events_are_taken_in_turn(t: TableView, a: Seq<EventView>, b: Seq<EventView>)
    ensures
        table_after(t, a + b) == match table_after(t, a) {
            Ok(between) => table_after(between, b),
            Err(e) => Err(e),
        },
    decreases a.len(),
{
    if a.len() == 0 {
        assert(a + b =~= b);
    } else {
        assert((a + b)[0] == a[0]);
        assert((a + b).skip(1) =~= a.skip(1) + b);
        if let Ok(next) = table_with(t, a[0]) {
            law_events_are_taken_in_turn(next, a.skip(1), b);
        }
    }
}

/// Taking an event in removes nothing: the rules, servers and records that were there stay in
/// front, and what the event adds stands behind them. Rules come from a tag `Rc`, servers and
/// records from a tag `Dns`, and other events that are no errors add nothing.
#[verifier::rlimit(40)]
pub proof fn law_events_add_to_what_is_there(t: TableView, e: EventView)
    requires
        table_with(t, e) is Ok,
    ensures
        ({
            let next = table_with(t, e)->Ok_0;
            let rc = e is Element && e->name == vstd::utf8::encode_utf8("Rc"@);
            let dns = e is Element && e->name == vstd::utf8::encode_utf8("Dns"@);
            &&& t.rules.is_prefix_of(next.rules)
            &&& t.dns_servers.is_prefix_of(next.dns_servers)
            &&& t.dns_records.is_prefix_of(next.dns_records)
            &&& rc ==> rc_rules(e->attributes) == Ok::<Seq<RuleView>, EcErrorView>(
                next.rules.skip(t.rules.len() as int),
            )
            &&& dns ==> dns_entries(e->attributes) == Ok::<
                (Seq<Seq<char>>, Seq<RecordView>),
                EcErrorView,
            >(
                (
                    next.dns_servers.skip(t.dns_servers.len() as int),
                    next.dns_records.skip(t.dns_records.len() as int),
                ),
            )
            &&& !rc ==> next.rules == t.rules
            &&& !dns ==> next.dns_servers == t.dns_servers && next.dns_records == t.dns_records
            &&& !(e is Broken)
        }),
{
    let next = table_with(t, e)->Ok_0;
    lemma_tags_differ();
    assert(next.rules.take(t.rules.len() as int) =~= t.rules);
    assert(next.dns_servers.take(t.dns_servers.len() as int) =~= t.dns_servers);
    assert(next.dns_records.take(t.dns_records.len() as int) =~= t.dns_records);
    if e is Element && e->name == vstd::utf8::encode_utf8("Rc"@) {
        let added = rc_rules(e->attributes)->Ok_0;
        assert(next.rules.skip(t.rules.len() as int) =~= added);
    } else if e is Element && e->name == vstd::utf8::encode_utf8("Dns"@) {
        let (servers, records) = dns_entries(e->attributes)->Ok_0;
        assert(next.dns_servers.skip(t.dns_servers.len() as int) =~= servers);
        assert(next.dns_records.skip(t.dns_records.len() as int) =~= records);
    }
}

proof fn lemma_tags_differ()
    ensures
        vstd::utf8::encode_utf8("Rc"@) != vstd::utf8::encode_utf8("Dns"@),
{
    reveal_strlit("Rc");
    reveal_strlit("Dns");
    vstd::utf8::is_ascii_chars_encode_utf8("Rc"@);
    vstd::utf8::is_ascii_chars_encode_utf8("Dns"@);
    assert("Rc"@.len() == 2);
    assert("Dns"@.len() == 3);
}

/// A document without an error gives a table in which the rules of every tag `Rc` stand
/// together, in the order of the tags, none of them lost: those of the tag at `k` stand behind
/// all those that the document has given before it. The same holds of the servers and records
/// of every tag `Dns`.
#[verifier::rlimit(40)]
pub proof fn law_every_tag_is_in_the_table(t: TableView, events: Seq<EventView>, k: int)
    requires
        0 <= k < events.len(),
        table_after(t, events) is Ok,
    ensures
        ({
            let out = table_after(t, events)->Ok_0;
            let before = table_after(t, events.take(k))->Ok_0;
            let e = events[k];
            &&& table_after(t, events.take(k)) is Ok
            &&& before.rules.is_prefix_of(out.rules)
            &&& before.dns_servers.is_prefix_of(out.dns_servers)
            &&& before.dns_records.is_prefix_of(out.dns_records)
            &&& e is Element && e->name == vstd::utf8::encode_utf8("Rc"@) ==> {
                &&& rc_rules(e->attributes) matches Ok(added)
                &&& (before.rules + added).is_prefix_of(out.rules)
                &&& forall|r: RuleView| #[trigger]
                    added.contains(r) ==> out.rules.contains(r)
            }
            &&& e is Element && e->name == vstd::utf8::encode_utf8("Dns"@) ==> {
                &&& dns_entries(e->attributes) matches Ok((servers, records))
                &&& (before.dns_servers + servers).is_prefix_of(out.dns_servers)
                &&& (before.dns_records + records).is_prefix_of(out.dns_records)
            }
        }),
{
    let e = events[k];
    let out = table_after(t, events)->Ok_0;
    assert(events.take(k) + events.skip(k) =~= events);
    law_events_are_taken_in_turn(t, events.take(k), events.skip(k));
    let before = table_after(t, events.take(k))->Ok_0;
    assert(events.skip(k)[0] == e);
    law_events_add_to_what_is_there(before, e);
    lemma_tags_differ();
    let next = table_with(before, e)->Ok_0;
    lemma_table_grows(next, events.skip(k).skip(1));
    assert(before.rules =~= out.rules.take(before.rules.len() as int));
    assert(before.dns_servers =~= out.dns_servers.take(before.dns_servers.len() as int));
    assert(before.dns_records =~= out.dns_records.take(before.dns_records.len() as int));
    if e is Element && e->name == vstd::utf8::encode_utf8("Rc"@) {
        let added = rc_rules(e->attributes)->Ok_0;
        assert(before.rules + added =~= next.rules);
        assert forall|r: RuleView| #[trigger] added.contains(r) implies out.rules.contains(r) by {
            let i = choose|i: int| 0 <= i < added.len() && added[i] == r;
            assert(next.rules[before.rules.len() + i] == r);
            assert(out.rules[before.rules.len() + i] == r);
        }
    }
    if e is Element && e->name == vstd::utf8::encode_utf8("Dns"@) {
        let (servers, records) = dns_entries(e->attributes)->Ok_0;
        assert(before.dns_servers + servers =~= next.dns_servers);
        assert(before.dns_records + records =~= next.dns_records);
    }
}

proof fn lemma_table_grows(t: TableView, events: Seq<EventView>)
    requires
        table_after(t, events) is Ok,
    ensures
        ({
            let out = table_after(t, events)->Ok_0;
            &&& t.rules.is_prefix_of(out.rules)
            &&& t.dns_servers.is_prefix_of(out.dns_servers)
            &&& t.dns_records.is_prefix_of(out.dns_records)
        }),
    decreases events.len(),
{
    if events.len() > 0 {
        let out = table_after(t, events)->Ok_0;
        let next = table_with(t, events[0])->Ok_0;
        law_events_add_to_what_is_there(t, events[0]);
        lemma_table_grows(next, events.skip(1));
        assert(t.rules =~= out.rules.take(t.rules.len() as int));
        assert(t.dns_servers =~= out.dns_servers.take(t.dns_servers.len() as int));
        assert(t.dns_records =~= out.dns_records.take(t.dns_records.len() as int));
    }
}

/// The rules of a table that a document gives are those of its tags `Rc`, one tag behind the
/// other, and no others: with each of them the table grows by the rules of that tag.
#[verifier::rlimit(40)]
pub proof fn law_no_rule_comes_from_elsewhere(events: Seq<EventView>, i: int)
    requires
        table_after(empty_table(), events) matches Ok(out) && 0 <= i < out.rules.len(),
    ensures
        exists|k: int|
            0 <= k < events.len() && (#[trigger] events[k]) is Element && events[k]->name
                == vstd::utf8::encode_utf8("Rc"@) && rc_rules(events[k]->attributes) is Ok
                && rc_rules(events[k]->attributes)->Ok_0.contains(
                table_after(empty_table(), events)->Ok_0.rules[i],
            ),
    decreases events.len(),
{
    let out = table_after(empty_table(), events)->Ok_0;
    if events.len() == 0 {
        assert(false);
    } else {
        let n = events.len() - 1;
        let rest = events.drop_last();
        assert(rest + seq![events.last()] =~= events);
        law_events_are_taken_in_turn(empty_table(), rest, seq![events.last()]);
        let before = table_after(empty_table(), rest)->Ok_0;
        assert(seq![events.last()].skip(1) =~= Seq::<EventView>::empty());
        assert(table_with(before, events.last()) == Ok::<TableView, EcErrorView>(out)) by {
            reveal_with_fuel(table_after, 2);
        }
        law_events_add_to_what_is_there(before, events.last());
        if i < before.rules.len() {
            law_no_rule_comes_from_elsewhere(rest, i);
            let k = choose|k: int|
                0 <= k < rest.len() && (#[trigger] rest[k]) is Element && rest[k]->name
                    == vstd::utf8::encode_utf8("Rc"@) && rc_rules(rest[k]->attributes) is Ok
                    && rc_rules(rest[k]->attributes)->Ok_0.contains(before.rules[i]);
            assert(events[k] == rest[k]);
            assert(out.rules[i] == before.rules[i]);
        } else {
            let added = rc_rules(events.last()->attributes)->Ok_0;
            assert(out.rules.skip(before.rules.len() as int)[i - before.rules.len()]
                == out.rules[i]);
            assert(added.contains(added[i - before.rules.len()]));
            assert(events[n] == events.last());
        }
    }
}

/// An attribute that is given again counts with its last value, and attributes with other keys
/// do not matter to it.
pub proof fn law_last_value_counts(
    a: Seq<AttributeView>,
    key: Seq<char>,
    other: Seq<u8>,
    value: Seq<char>,
)
    ensures
        attribute(Seq::empty(), key) is None,
        attribute(
            a.push(AttributeView::Pair { key: vstd::utf8::encode_utf8(key), value }),
            key,
        ) == Some(value),
        other != vstd::utf8::encode_utf8(key) ==> attribute(
            a.push(AttributeView::Pair { key: other, value }),
            key,
        ) == attribute(a, key),
{
    let mine = AttributeView::Pair { key: vstd::utf8::encode_utf8(key), value };
    let their = AttributeView::Pair { key: other, value };
    assert(a.push(mine).drop_last() =~= a);
    assert(a.push(their).drop_last() =~= a);
}

/// A tag whose attributes can all be read gives no error for them; one with an attribute that
/// cannot be read gives an error, that of the first of them.
pub proof fn law_first_broken_attribute_is_reported(a: Seq<AttributeView>, k: int)
    requires
        0 <= k <= a.len(),
        forall|j: int| 0 <= j < k ==> (#[trigger] a[j]) is Pair,
        k < a.len() ==> !(a[k] is Pair),
    ensures
        k == a.len() ==> attribute_failure(a) is None,
        k < a.len() ==> attribute_failure(a) == Some(
            EcErrorView::Runtime(
                match a[k] {
                    AttributeView::BadSyntax(m) => "xml attr parse failed: "@ + m,
                    AttributeView::BadValue(m) => "xml attr decode failed: "@ + m,
                    AttributeView::Pair { .. } => Seq::empty(),
                },
            ),
        ),
        k < a.len() ==> rc_rules(a) is Err && dns_entries(a) is Err,
    decreases a.len(),
{
    if a.len() > 0 {
        let rest = a.drop_last();
        if k < a.len() - 1 {
            law_first_broken_attribute_is_reported(rest, k);
        } else {
            assert forall|j: int| 0 <= j < rest.len() implies (#[trigger] rest[j]) is Pair by {
                assert(rest[j] == a[j]);
            }
            law_first_broken_attribute_is_reported(rest, rest.len() as int);
            assert(a.last() == a[a.len() - 1]);
        }
    }
}

/// A resource with a number, hosts and ports gives rules of its number and its name for them;
/// without one of the three it gives none, and a number that is none is an error.
pub proof fn law_resources_need_number_hosts_and_ports(a: Seq<AttributeView>, id: i32)
    requires
        attribute_failure(a) is None,
    ensures
        attribute(a, "id"@) is None || attribute(a, "host"@) is None || attribute(a, "port"@)
            is None ==> rc_rules(a) == Ok::<Seq<RuleView>, EcErrorView>(Seq::empty()),
        attribute(a, "id"@) == Some(text::decimal(id as int)) ==> {
            &&& rc_rules(a) matches Ok(rules)
            &&& forall|i: int|
                0 <= i < rules.len() ==> {
                    let r = #[trigger] rules[i];
                    &&& r.rc_id == id
                    &&& r.proto == 0
                    &&& attribute(a, "name"@) matches Some(name) ==> r.name == name
                    &&& attribute(a, "name"@) is None ==> r.name.len() == 0
                }
        },
        (attribute(a, "id"@) matches Some(s) && text::i32_text(s) is Err) && attribute(a, "host"@)
            is Some && attribute(a, "port"@) is Some ==> rc_rules(a) is Err,
{
    text::law_integers_are_read_back(id as int, i32::MIN as int, i32::MAX as int);
}

/// The first host and the first ports of a resource make its first rule, and where there is
/// one host and one range of ports, that is all.
#[verifier::rlimit(40)]
pub proof fn law_one_host_and_one_port_make_one_rule(
    a: Seq<AttributeView>,
    id: i32,
    host: Seq<char>,
    start: u16,
    end: u16,
)
    requires
        attribute_failure(a) is None,
        attribute(a, "id"@) == Some(text::decimal(id as int)),
        attribute(a, "host"@) == Some(host),
        attribute(a, "port"@) == Some(
            text::decimal(start as int) + "~"@ + text::decimal(end as int),
        ) || (start == end && attribute(a, "port"@) == Some(text::decimal(start as int))),
        !host.contains(';'),
        !host.contains('/'),
        host.len() > 0,
        !text::is_white(host[0]),
        !text::is_white(host.last()),
    ensures
        rc_rules(a) matches Ok(rules) && rules.len() == 1 && rules[0].rc_id == id && rules[0].host
            == host && rules[0].port == (PortRange { start, end }),
{
    text::law_integers_are_read_back(id as int, i32::MIN as int, i32::MAX as int);
    let empty = Seq::<char>::empty();
    let range = text::decimal(start as int) + "~"@ + text::decimal(end as int);
    let single = text::decimal(start as int);
    reveal_strlit("~");
    lemma_decimal_lacks(start, ';');
    lemma_decimal_lacks(end, ';');
    assert(!range.contains(';')) by {
        if range.contains(';') {
            let i = choose|i: int| 0 <= i < range.len() && range[i] == ';';
            if i < single.len() {
                assert(single[i] == ';');
            } else if i > single.len() {
                assert(text::decimal(end as int)[i - single.len() - 1] == ';');
            }
        }
    }
    law_lists_are_read_item_by_item(host, empty);
    law_lists_are_read_item_by_item(range, empty);
    law_lists_are_read_item_by_item(single, empty);
    law_ports_are_read(empty, start, end, empty);
    assert(empty + range + empty =~= range);
    assert(empty + single + empty =~= single);
    law_hosts_are_stripped(empty, empty, host, empty, empty);
    assert(empty + empty + host + empty + empty =~= host);
}

proof fn lemma_decimal_lacks(n: u16, c: char)
    requires
        !text::is_digit(c),
    ensures
        !text::decimal(n as int).contains(c),
        text::decimal(n as int).len() > 0,
        !text::is_white(text::decimal(n as int)[0]),
        !text::is_white(text::decimal(n as int).last()),
{
    let d = text::digits(n as nat, 10);
    text::lemma_digits_lack(n as nat, 10, c);
    text::law_digits_are_read_back(n as nat, 10);
    assert(text::is_digit(d[0]) && text::is_digit(d[d.len() - 1]));
}

proof fn lemma_lists_join(f: Seq<Seq<char>>, g: Seq<Seq<char>>)
    ensures
        hosts_of(f + g) == hosts_of(f) + hosts_of(g),
        ports_of(f + g) == ports_of(f) + ports_of(g),
        nonblank(f + g) == nonblank(f) + nonblank(g),
        records_of(f + g) == records_of(f) + records_of(g),
    decreases g.len(),
{
    if g.len() == 0 {
        assert(f + g =~= f);
        assert(hosts_of(f) + hosts_of(g) =~= hosts_of(f));
        assert(ports_of(f) + ports_of(g) =~= ports_of(f));
        assert(nonblank(f) + nonblank(g) =~= nonblank(f));
        assert(records_of(f) + records_of(g) =~= records_of(f));
    } else {
        lemma_lists_join(f, g.drop_last());
        assert((f + g).drop_last() =~= f + g.drop_last());
        assert(hosts_of(f + g) =~= hosts_of(f) + hosts_of(g));
        assert(ports_of(f + g) =~= ports_of(f) + ports_of(g));
        assert(nonblank(f + g) =~= nonblank(f) + nonblank(g));
        assert(records_of(f + g) =~= records_of(f) + records_of(g));
    }
}

/// The hosts, ports, servers or records of a list with semicolons are those of its items, in
/// their order; an item gives one or none.
pub proof fn law_lists_are_read_item_by_item(a: Seq<char>, b: Seq<char>)
    ensures
        ({
            let left = text::fields(a, ';');
            let right = text::fields(b, ';');
            let both = text::fields(a.push(';') + b, ';');
            &&& hosts_of(both) == hosts_of(left) + hosts_of(right)
            &&& ports_of(both) == ports_of(left) + ports_of(right)
            &&& nonblank(both) == nonblank(left) + nonblank(right)
            &&& records_of(both) == records_of(left) + records_of(right)
            &&& !a.contains(';') ==> {
                &&& hosts_of(left) == if host_token(a).len() > 0 {
                    seq![host_token(a)]
                } else {
                    Seq::empty()
                }
                &&& ports_of(left) == match port_token(a) {
                    Some(p) => seq![p],
                    None => Seq::empty(),
                }
                &&& nonblank(left) == if text::trimmed(a).len() > 0 {
                    seq![text::trimmed(a)]
                } else {
                    Seq::empty()
                }
                &&& records_of(left) == match record_of(text::trimmed(a)) {
                    Some(r) => seq![r],
                    None => Seq::empty(),
                }
            }
        }),
{
    text::law_fields_of_both_sides(a, ';', b);
    lemma_lists_join(text::fields(a, ';'), text::fields(b, ';'));
    if !a.contains(';') {
        let f = text::fields(a, ';');
        assert(f.drop_last() =~= Seq::<Seq<char>>::empty());
        assert(hosts_of(f.drop_last()) =~= Seq::<Seq<char>>::empty());
        assert(ports_of(f.drop_last()) =~= Seq::<PortRange>::empty());
        assert(nonblank(f.drop_last()) =~= Seq::<Seq<char>>::empty());
        assert(records_of(f.drop_last()) =~= Seq::<RecordView>::empty());
        assert(hosts_of(f) =~= if host_token(a).len() > 0 {
            seq![host_token(a)]
        } else {
            Seq::empty()
        });
        assert(ports_of(f) =~= match port_token(a) {
            Some(p) => seq![p],
            None => Seq::empty(),
        });
        assert(nonblank(f) =~= if text::trimmed(a).len() > 0 {
            seq![text::trimmed(a)]
        } else {
            Seq::empty()
        });
        assert(records_of(f) =~= match record_of(text::trimmed(a)) {
            Some(r) => seq![r],
            None => Seq::empty(),
        });
    }
}

/// A host is what stands behind the scheme and in front of the path, if there are any, without
/// white space round it.
#[verifier::rlimit(40)]
pub proof fn law_hosts_are_stripped(
    w: Seq<char>,
    scheme: Seq<char>,
    host: Seq<char>,
    path: Seq<char>,
    v: Seq<char>,
)
    requires
        forall|i: int| 0 <= i < w.len() ==> text::is_white(#[trigger] w[i]),
        forall|i: int| 0 <= i < v.len() ==> text::is_white(#[trigger] v[i]),
        scheme.len() == 0 || scheme == "http://"@ || scheme == "https://"@,
        !host.contains('/'),
        host.len() > 0,
        scheme.len() == 0 && path.len() > 1 && path[1] == '/' ==> host != "http:"@ && host
            != "https:"@,
        !text::is_white(host[0]),
        !text::is_white(host.last()),
        path.len() > 0 ==> path[0] == '/' && !text::is_white(path.last()),
    ensures
        host_token(w + scheme + host + path + v) == host,
{
    reveal_strlit("http://");
    reveal_strlit("https://");
    let core = scheme + host + path;
    let rest = host + path;
    assert(w + scheme + host + path + v =~= w + core + v);
    assert(core[0] == if scheme.len() > 0 {
        scheme[0]
    } else {
        host[0]
    });
    assert(core.last() == if path.len() > 0 {
        path.last()
    } else {
        host.last()
    });
    text::law_trim_takes_white_space_off(w, core, v);
    assert(endpoint::without_scheme(core) == rest) by {
        endpoint::lemma_scheme_is_stripped(scheme, host, path);
    }
    if path.len() > 0 {
        assert(rest =~= host.push('/') + path.skip(1));
        text::law_fields_of_both_sides(host, '/', path.skip(1));
        assert(text::fields(rest, '/')[0] == host);
    } else {
        assert(rest =~= host);
        text::lemma_one_field(host, '/');
    }
    text::lemma_trimmed_already(host);
}

/// A port stands for itself alone, and two with a tilde between them for the range from the
/// first to the second, as they are written; white space round them does not matter.
#[verifier::rlimit(40)]
pub proof fn law_ports_are_read(w: Seq<char>, start: u16, end: u16, v: Seq<char>)
    requires
        forall|i: int| 0 <= i < w.len() ==> text::is_white(#[trigger] w[i]),
        forall|i: int| 0 <= i < v.len() ==> text::is_white(#[trigger] v[i]),
    ensures
        port_token(w + text::decimal(start as int) + v) == Some(PortRange { start, end: start }),
        port_token(w + (text::decimal(start as int) + "~"@ + text::decimal(end as int)) + v)
            == Some(PortRange { start, end }),
{
    let a = text::decimal(start as int);
    let b = text::decimal(end as int);
    let range = a + "~"@ + b;
    reveal_strlit("~");
    lemma_decimal_lacks(start, '~');
    lemma_decimal_lacks(end, '~');
    text::law_trim_takes_white_space_off(w, a, v);
    assert(range[0] == a[0] && range.last() == b.last());
    text::law_trim_takes_white_space_off(w, range, v);
    text::lemma_trimmed_already(a);
    text::lemma_trimmed_already(b);
    text::law_integers_are_read_back(start as int, 0, 65535);
    text::law_integers_are_read_back(end as int, 0, 65535);
    text::law_characters_are_found(a, '~', b);
    assert(range =~= a.push('~') + b);
    assert(range.take(a.len() as int) =~= a);
    assert(range.skip(a.len() as int + 1) =~= b);
}

/// A record is a number, a host and an address with colons between them; the address is what
/// stands behind the last colon.
#[verifier::rlimit(40)]
pub proof fn law_records_are_read(id: i32, host: Seq<char>, ip: Seq<char>)
    requires
        !ip.contains(':'),
        host_token(host).len() > 0,
        text::trimmed(ip).len() > 0,
    ensures
        record_of(text::decimal(id as int) + ":"@ + host + ":"@ + ip) == Some(
            RecordView { rc_id: id, host: host_token(host), ip: text::trimmed(ip) },
        ),
{
    let n = text::decimal(id as int);
    let item = n + ":"@ + host + ":"@ + ip;
    let rest = host + ":"@ + ip;
    reveal_strlit(":");
    let m = (if id < 0 {
        -id
    } else {
        id as int
    }) as nat;
    text::lemma_digits_lack(m, 10, ':');
    assert(!n.contains(':')) by {
        if n.contains(':') {
            let i = choose|i: int| 0 <= i < n.len() && n[i] == ':';
            if id < 0 {
                assert(text::digits(m, 10)[i - 1] == ':');
            } else {
                assert(text::digits(m, 10)[i] == ':');
            }
        }
    }
    text::law_characters_are_found(n, ':', rest);
    assert(item =~= n.push(':') + rest);
    assert(item.take(n.len() as int) =~= n);
    assert(item.skip(n.len() as int + 1) =~= rest);
    text::law_characters_are_found(host, ':', ip);
    assert(rest =~= host.push(':') + ip);
    assert(rest.take(host.len() as int) =~= host);
    assert(rest.skip(host.len() as int + 1) =~= ip);
    text::law_integers_are_read_back(id as int, i32::MIN as int, i32::MAX as int);
}

/// The list of a response is the response from the XML declaration on, where it first stands,
/// or, without a declaration, from the first root element on; without either there is none.
#[verifier::rlimit(40)]
pub proof fn law_payload_begins_with_its_mark(response: Seq<char>, i: int)
    ensures
        0 <= i <= response.len() && "<?xml"@.is_prefix_of(response.skip(i)) && (forall|j: int|
            0 <= j < i ==> !"<?xml"@.is_prefix_of(#[trigger] response.skip(j))) ==> payload_of(
            response,
        ) == Ok::<Seq<char>, EcErrorView>(response.skip(i)),
        (forall|j: int|
            0 <= j <= response.len() ==> !"<?xml"@.is_prefix_of(#[trigger] response.skip(j))) && 0
            <= i <= response.len() && "<Resource>"@.is_prefix_of(response.skip(i)) && (forall|
            j: int,
        |
            0 <= j < i ==> !"<Resource>"@.is_prefix_of(#[trigger] response.skip(j)))
            ==> payload_of(response) == Ok::<Seq<char>, EcErrorView>(response.skip(i)),
        payload_of(response) matches Ok(xml) ==> "<?xml"@.is_prefix_of(xml)
            || "<Resource>"@.is_prefix_of(xml),
{
    lemma_text_is_found(response, "<?xml"@, i);
    lemma_text_is_found(response, "<Resource>"@, i);
    if let Some(k) = text::first_text(response, "<?xml"@) {
        assert(text::is_first_text(response, "<?xml"@, k));
        lemma_stands_there(response, "<?xml"@, k);
        if 0 <= i <= response.len() {
            lemma_stands_there(response, "<?xml"@, i);
        }
    } else if let Some(k) = text::first_text(response, "<Resource>"@) {
        assert(text::is_first_text(response, "<Resource>"@, k));
        lemma_stands_there(response, "<Resource>"@, k);
    }
}

proof fn lemma_stands_there(s: Seq<char>, p: Seq<char>, i: int)
    requires
        0 <= i <= s.len(),
    ensures
        text::occurs_at(s, p, i) <==> p.is_prefix_of(s.skip(i)),
{
    if text::occurs_at(s, p, i) {
        assert(s.skip(i).take(p.len() as int) =~= s.subrange(i, i + p.len()));
    }
    if p.is_prefix_of(s.skip(i)) {
        assert(s.subrange(i, i + p.len()) =~= s.skip(i).take(p.len() as int));
    }
}

proof fn lemma_text_is_found(s: Seq<char>, p: Seq<char>, i: int)
    ensures
        0 <= i <= s.len() && p.is_prefix_of(s.skip(i)) && (forall|j: int|
            0 <= j < i ==> !p.is_prefix_of(#[trigger] s.skip(j))) ==> text::first_text(s, p)
            == Some(i),
        (forall|j: int| 0 <= j <= s.len() ==> !p.is_prefix_of(#[trigger] s.skip(j)))
            ==> text::first_text(s, p) is None,
{
    if 0 <= i <= s.len() && p.is_prefix_of(s.skip(i)) && (forall|j: int|
        0 <= j < i ==> !p.is_prefix_of(#[trigger] s.skip(j))) {
        lemma_stands_there(s, p, i);
        assert forall|j: int| 0 <= j < i implies !text::occurs_at(s, p, j) by {
            lemma_stands_there(s, p, j);
            assert(!p.is_prefix_of(s.skip(j)));
        }
        assert(text::is_first_text(s, p, i));
        let k = choose|k: int| text::is_first_text(s, p, k);
        assert(text::is_first_text(s, p, k));
        assert(k == i);
    }
    if forall|j: int| 0 <= j <= s.len() ==> !p.is_prefix_of(#[trigger] s.skip(j)) {
        assert forall|j: int| !text::is_first_text(s, p, j) by {
            if text::occurs_at(s, p, j) {
                lemma_stands_there(s, p, j);
                assert(!p.is_prefix_of(s.skip(j)));
            }
        }
    }
}

/// Where a resource has more ports than hosts, its last host goes with the ports that are left,
/// and where it has more hosts than ports, its last ports go with the hosts that are left.
pub proof fn law_last_host_and_ports_are_drawn_out(
    rc_id: i32,
    name: Seq<char>,
    hosts: Seq<Seq<char>>,
    ports: Seq<PortRange>,
    i: int,
)
    requires
        hosts.len() > 0,
        ports.len() > 0,
        0 <= i < hosts.len() || 0 <= i < ports.len(),
    ensures
        ({
            let rules = resource_rules(rc_id, name, hosts, ports);
            &&& i < rules.len()
            &&& i >= hosts.len() ==> rules[i].host == hosts[hosts.len() - 1] && rules[i].port
                == ports[i]
            &&& i >= ports.len() ==> rules[i].port == ports[ports.len() - 1] && rules[i].host
                == hosts[i]
            &&& i < hosts.len() && i < ports.len() ==> rules[i].host == hosts[i] && rules[i].port
                == ports[i]
            &&& rules[i].rc_id == rc_id && rules[i].name == name && rules[i].proto == 0
            &&& hosts.len() >= ports.len() ==> rules.len() == hosts.len()
            &&& ports.len() >= hosts.len() ==> rules.len() == ports.len()
        }),
{
}

/// A resource without a host, or without ports, that can be read makes no rules.
pub proof fn law_nothing_to_serve_makes_no_rules(
    rc_id: i32,
    name: Seq<char>,
    hosts: Seq<Seq<char>>,
    ports: Seq<PortRange>,
)
    requires
        hosts.len() == 0 || ports.len() == 0,
    ensures
        resource_rules(rc_id, name, hosts, ports).len() == 0,
{
}

/// A tag `Dns` gives the servers of its one attribute and the records of its other, and neither
/// of them for an attribute that it lacks.
#[verifier::rlimit(40)]
pub proof fn law_dns_tags_give_servers_and_records(
    a: Seq<AttributeView>,
    server: Seq<char>,
    id: i32,
    host: Seq<char>,
    ip: Seq<char>,
)
    requires
        attribute_failure(a) is None,
        !server.contains(';'),
        text::trimmed(server).len() > 0,
        !host.contains(';'),
        !ip.contains(';'),
        !ip.contains(':'),
        ip.len() > 0,
        !text::is_white(ip.last()),
        host_token(host).len() > 0,
        text::trimmed(ip).len() > 0,
    ensures
        ({
            let (servers, records) = dns_entries(a)->Ok_0;
            let item = text::decimal(id as int) + ":"@ + host + ":"@ + ip;
            &&& dns_entries(a) is Ok
            &&& attribute(a, "dnsserver"@) is None ==> servers.len() == 0
            &&& attribute(a, "data"@) is None ==> records.len() == 0
            &&& attribute(a, "dnsserver"@) == Some(server) ==> servers == seq![text::trimmed(server)]
            &&& attribute(a, "data"@) == Some(item) ==> records == seq![
                RecordView { rc_id: id, host: host_token(host), ip: text::trimmed(ip) },
            ]
        }),
{
    let n = text::decimal(id as int);
    let item = n + ":"@ + host + ":"@ + ip;
    let none = Seq::<char>::empty();
    reveal_strlit(":");
    law_lists_are_read_item_by_item(server, none);
    lemma_number_is_plain(id);
    assert(!item.contains(';')) by {
        if item.contains(';') {
            let i = choose|i: int| 0 <= i < item.len() && item[i] == ';';
            if i < n.len() {
                assert(n[i] == ';');
            } else if n.len() < i < n.len() + 1 + host.len() {
                assert(host[i - n.len() - 1] == ';');
            } else if i > n.len() + 1 + host.len() {
                assert(ip[i - n.len() - host.len() - 2] == ';');
            }
        }
    }
    law_lists_are_read_item_by_item(item, none);
    assert(item[0] == n[0] && item.last() == ip.last());
    text::lemma_trimmed_already(item);
    law_records_are_read(id, host, ip);
}

proof fn lemma_number_is_plain(id: i32)
    ensures
        ({
            let n = text::decimal(id as int);
            n.len() > 0 && !n.contains(';') && !text::is_white(n[0])
        }),
{
    let n = text::decimal(id as int);
    let m = (if id < 0 {
        -id
    } else {
        id as int
    }) as nat;
    let d = text::digits(m, 10);
    text::law_digits_are_read_back(m, 10);
    text::lemma_digits_lack(m, 10, ';');
    assert(text::is_digit(d[0]));
    if n.contains(';') {
        let i = choose|i: int| 0 <= i < n.len() && n[i] == ';';
        if id < 0 {
            assert(d[i - 1] == ';');
        } else {
            assert(d[i] == ';');
        }
    }
}

/// The request for the list is made of these lines: what is asked for, the server, the session
/// and the wish to close the connection, and an empty one.
#[verifier::rlimit(40)]
pub proof fn law_request_asks_for_the_list(authority: Seq<char>, twf_id: Seq<char>)
    requires
        !authority.contains('\n'),
        !twf_id.contains('\n'),
    ensures
        text::fields(request_text(authority, twf_id), '\n') == seq![
            "GET /por/rclist.csp HTTP/1.1\r"@,
            "Host: "@ + authority + "\r"@,
            "Cookie: TWFID="@ + twf_id + "\r"@,
            "Connection: close\r"@,
            "\r"@,
            Seq::empty(),
        ],
{
    reveal_strlit("GET /por/rclist.csp HTTP/1.1\r\nHost: ");
    reveal_strlit("\r\nCookie: TWFID=");
    reveal_strlit("\r\nConnection: close\r\n\r\n");
    reveal_strlit("GET /por/rclist.csp HTTP/1.1\r");
    reveal_strlit("Host: ");
    reveal_strlit("Cookie: TWFID=");
    reveal_strlit("Connection: close\r");
    reveal_strlit("\r");
    let a = "GET /por/rclist.csp HTTP/1.1\r"@;
    let b = "Host: "@ + authority + "\r"@;
    let c = "Cookie: TWFID="@ + twf_id + "\r"@;
    let d = "Connection: close\r"@;
    let e = "\r"@;
    let none = Seq::<char>::empty();
    text::lemma_framed_lacks("Host: "@, authority, "\r"@, '\n');
    text::lemma_framed_lacks("Cookie: TWFID="@, twf_id, "\r"@, '\n');
    let e5 = e.push('\n') + none;
    let e4 = d.push('\n') + e5;
    let e3 = c.push('\n') + e4;
    let e2 = b.push('\n') + e3;
    assert(request_text(authority, twf_id) =~= a.push('\n') + e2);
    text::law_fields_of_both_sides(a, '\n', e2);
    text::law_fields_of_both_sides(b, '\n', e3);
    text::law_fields_of_both_sides(c, '\n', e4);
    text::law_fields_of_both_sides(d, '\n', e5);
    text::law_fields_of_both_sides(e, '\n', none);
    text::law_fields_of_both_sides(none, '\n', none);
    assert(text::fields(request_text(authority, twf_id), '\n') =~= seq![a, b, c, d, e, none]);
}

/// Only the list in a response matters: two responses with the same list give the same table,
/// and one without a list gives none.
pub proof fn law_only_the_list_matters(a: Seq<char>, b: Seq<char>)
    requires
        payload_of(a) == payload_of(b),
    ensures
        table_of_response(a) == table_of_response(b),
        payload_of(a) is Err ==> table_of_response(a) is Err,
        payload_of(a) is Err || table_of_response(a) == table_after(
            empty_table(),
            xml_events(payload_of(a)->Ok_0),
        ),
        empty_table().rules.len() == 0 && empty_table().dns_servers.len() == 0
            && empty_table().dns_records.len() == 0,
{
}

/// A resource with two hosts and two ports gives two rules, one for the first of each and one
/// for the second of each.
#[verifier::rlimit(40)]
pub proof fn law_hosts_and_ports_go_side_by_side(
    a: Seq<AttributeView>,
    id: i32,
    h: Seq<char>,
    g: Seq<char>,
    p: u16,
    q: u16,
)
    requires
        attribute_failure(a) is None,
        attribute(a, "id"@) == Some(text::decimal(id as int)),
        attribute(a, "host"@) == Some(h.push(';') + g),
        attribute(a, "port"@) == Some(
            text::decimal(p as int).push(';') + text::decimal(q as int),
        ),
        !h.contains(';') && !g.contains(';'),
        host_token(h).len() > 0 && host_token(g).len() > 0,
    ensures
        rc_rules(a) is Ok,
        rc_rules(a)->Ok_0.len() == 2,
        rc_rules(a)->Ok_0[0].host == host_token(h),
        rc_rules(a)->Ok_0[0].port == (PortRange { start: p, end: p }),
        rc_rules(a)->Ok_0[1].host == host_token(g),
        rc_rules(a)->Ok_0[1].port == (PortRange { start: q, end: q }),
{
    let x = text::decimal(p as int);
    let y = text::decimal(q as int);
    let none = Seq::<char>::empty();
    text::law_integers_are_read_back(id as int, i32::MIN as int, i32::MAX as int);
    lemma_decimal_lacks(p, ';');
    lemma_decimal_lacks(q, ';');
    law_lists_are_read_item_by_item(h, g);
    law_lists_are_read_item_by_item(g, none);
    law_lists_are_read_item_by_item(x, y);
    law_lists_are_read_item_by_item(y, none);
    law_ports_are_read(none, p, p, none);
    law_ports_are_read(none, q, q, none);
    assert(none + x + none =~= x);
    assert(none + y + none =~= y);
}

} // verus!
