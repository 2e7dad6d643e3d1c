//! The connections that run through the tunnel.

use smoltcp::iface::{Interface, SocketHandle, SocketSet};
use smoltcp::socket::tcp;
use smoltcp::wire::{IpAddress, Ipv4Address};
use std::collections::VecDeque;
use vstd::prelude::*;
use crate::addr::{SocketAddr, SocketAddrV4};
use crate::error;
use crate::error::{EcError, EcErrorView, EcResult};
use crate::socks;
use crate::text;

verus! {

/// How long opening a connection may take, in milliseconds.
pub const OPEN_CONN_TIMEOUT: u64 = 10_000;

/// The size of each buffer of a socket.
pub const SOCKET_BUFFER_CAPACITY: usize = 65536;

/// How many messages are taken before the connections are driven again.
pub const MAX_CONTROL_BATCH: usize = 64;

/// How much is read from a socket at once.
pub const UPLINK_CHUNK: usize = 4096;

/// The first number for a connection.
pub const FIRST_CONNECTION_ID: u64 = 1;

/// The lowest local port.
pub const FIRST_LOCAL_PORT: u16 = 40000;

/// The highest local port.
pub const LAST_LOCAL_PORT: u16 = 60000;

// ---------------------------------------------------------------------------
// Sockets
// ---------------------------------------------------------------------------

/// The TCP socket of `smoltcp`.
#[verifier::external_type_specification]
#[verifier::external_body]
pub struct ExSocket<'a>(smoltcp::socket::tcp::Socket<'a>);

/// The socket set of `smoltcp`.
#[verifier::external_type_specification]
#[verifier::external_body]
pub struct ExSocketSet<'a>(smoltcp::iface::SocketSet<'a>);

/// What a socket set of `smoltcp` finds a socket by.
#[verifier::external_type_specification]
#[verifier::external_body]
pub struct ExSocketHandle(smoltcp::iface::SocketHandle);

/// The network interface of `smoltcp`.
#[verifier::external_type_specification]
#[verifier::external_body]
pub struct ExInterface(smoltcp::iface::Interface);

/// The states of a TCP connection.
pub ghost enum TcpState {
    Closed,
    Listen,
    SynSent,
    SynReceived,
    Established,
    FinWait1,
    FinWait2,
    CloseWait,
    Closing,
    LastAck,
    TimeWait,
}

/// The octets that a socket has still to send, or that were sent and not acknowledged.
pub uninterp spec fn tx_queue(s: tcp::Socket<'_>) -> Seq<u8>;

/// How many octets the transmit buffer of a socket holds at most.
pub uninterp spec fn tx_capacity(s: tcp::Socket<'_>) -> nat;

/// How many octets the receive buffer of a socket holds at most.
pub uninterp spec fn rx_capacity(s: tcp::Socket<'_>) -> nat;

/// The octets that a socket has received and that were not taken yet.
pub uninterp spec fn rx_queue(s: tcp::Socket<'_>) -> Seq<u8>;

/// The state of the connection of a socket.
pub uninterp spec fn tcp_state(s: tcp::Socket<'_>) -> TcpState;

/// The ends of the connection of a socket: the other side, and the port on this side.
pub uninterp spec fn tcp_ends(s: tcp::Socket<'_>) -> Option<(SocketAddrV4, u16)>;

/// The TCP sockets of a set, by their handles.
pub uninterp spec fn tcp_sockets(s: SocketSet<'_>) -> Map<SocketHandle, tcp::Socket<'_>>;

/// There is always room for another socket in the set.
pub uninterp spec fn may_grow(s: SocketSet<'_>) -> bool;

/// The interface has an IPv4 address to connect from.
pub uninterp spec fn has_ipv4(i: Interface) -> bool;

/// There is a connection, or one may come about.
pub open spec fn open_in(state: TcpState) -> bool {
    !(state is Closed || state is TimeWait)
}

/// The transmit half of the connection is open.
pub open spec fn may_send_in(state: TcpState) -> bool {
    state is Established || state is CloseWait
}

/// There is something to receive, and it may be taken: the receive half is open, or was open
/// when it came.
pub open spec fn receivable(queue: Seq<u8>) -> bool {
    queue.len() > 0
}

/// The state after the connection is closed from this side.
pub open spec fn closed_state(state: TcpState) -> TcpState {
    match state {
        TcpState::Listen => TcpState::Closed,
        TcpState::SynSent => TcpState::Closed,
        TcpState::SynReceived => TcpState::FinWait1,
        TcpState::Established => TcpState::FinWait1,
        TcpState::CloseWait => TcpState::LastAck,
        _ => state,
    }
}

/// Everything about two sockets that is spoken of here, but for the transmit queue.
pub open spec fn same_but_tx(a: tcp::Socket<'_>, b: tcp::Socket<'_>) -> bool {
    &&& tx_capacity(a) == tx_capacity(b)
    &&& rx_capacity(a) == rx_capacity(b)
    &&& rx_queue(a) == rx_queue(b)
    &&& tcp_state(a) == tcp_state(b)
    &&& tcp_ends(a) == tcp_ends(b)
}

/// A target can be connected to from a local port of an interface.
pub open spec fn addressable(target: SocketAddrV4, local_port: u16, iface: Interface) -> bool {
    &&& target.port != 0
    &&& target.ip.bits != 0
    &&& local_port != 0
    &&& has_ipv4(iface)
}

/// `SocketSet::new` of `smoltcp` with storage of its own: a set without sockets, which grows
/// as sockets are added.
#[verifier::external_body]
fn new_socket_set() -> (r: SocketSet<'static>)
    ensures
        may_grow(r),
        forall|h: SocketHandle| !tcp_sockets(r).contains_key(h),
{
    SocketSet::new(Vec::new())
}

/// `SocketSet::add` of `smoltcp`: puts a socket into the set, under a handle that no socket of
/// the set has. A set that may not grow could be full.
#[verifier::external_body]
fn add_socket(set: &mut SocketSet<'static>, socket: tcp::Socket<'static>) -> (r: SocketHandle)
    requires
        may_grow(*old(set)),
    ensures
        may_grow(*final(set)),
        !tcp_sockets(*old(set)).contains_key(r),
        tcp_sockets(*final(set)) == tcp_sockets(*old(set)).insert(r, socket),
{
    set.add(socket)
}

/// `SocketSet::get_mut` of `smoltcp`: the TCP socket of the set that has the handle.
#[verifier::external_body]
fn tcp_socket<'s>(set: &'s mut SocketSet<'static>, handle: SocketHandle) -> (r: &'s mut tcp::Socket<
    'static,
>)
    requires
        tcp_sockets(*old(set)).contains_key(handle),
    ensures
        *r == tcp_sockets(*old(set))[handle],
        may_grow(*final(set)) == may_grow(*old(set)),
        tcp_sockets(*final(set)) == tcp_sockets(*old(set)).insert(handle, *final(r)),
{
    set.get_mut(handle)
}

/// `SocketSet::remove` of `smoltcp`: takes the socket that has the handle out of the set.
#[verifier::external_body]
fn remove_socket(set: &mut SocketSet<'static>, handle: SocketHandle)
    requires
        tcp_sockets(*old(set)).contains_key(handle),
    ensures
        may_grow(*final(set)) == may_grow(*old(set)),
        tcp_sockets(*final(set)) == tcp_sockets(*old(set)).remove(handle),
{
    let _ = set.remove(handle);
}

/// `Socket::new` of `smoltcp` with buffers of the given sizes: a socket without a connection
/// and with nothing in its buffers. It refuses a receive buffer of more than a gibibyte.
#[verifier::external_body]
fn new_tcp_socket(rx_capacity: usize, tx_capacity: usize) -> (r: tcp::Socket<'static>)
    requires
        rx_capacity <= 0x4000_0000,
    ensures
        tcp_state(r) is Closed,
        tcp_ends(r) is None,
        tx_queue(r).len() == 0,
        rx_queue(r).len() == 0,
        self::tx_capacity(r) == tx_capacity,
        self::rx_capacity(r) == rx_capacity,
{
    let rx = tcp::SocketBuffer::new(vec![0; rx_capacity]);
    let tx = tcp::SocketBuffer::new(vec![0; tx_capacity]);
    tcp::Socket::new(rx, tx)
}

/// `Socket::connect` of `smoltcp`, to an IPv4 address and from an address that the interface
/// picks: empties the socket and sets it up to connect; fails, and does nothing, where it is
/// open already, and where the target or the local port is not specified or the interface has
/// no IPv4 address.
#[verifier::external_body]
fn connect_socket(
    socket: &mut tcp::Socket<'_>,
    iface: &mut Interface,
    target: SocketAddrV4,
    local_port: u16,
) -> (r: Result<(), String>)
    ensures
        has_ipv4(*final(iface)) == has_ipv4(*old(iface)),
        tx_capacity(*final(socket)) == tx_capacity(*old(socket)),
        rx_capacity(*final(socket)) == rx_capacity(*old(socket)),
        match r {
            Ok(_) => {
                &&& !open_in(tcp_state(*old(socket)))
                &&& addressable(target, local_port, *old(iface))
                &&& tcp_state(*final(socket)) is SynSent
                &&& tcp_ends(*final(socket)) == Some((target, local_port))
                &&& tx_queue(*final(socket)).len() == 0
                &&& rx_queue(*final(socket)).len() == 0
            },
            Err(m) => {
                &&& same_but_tx(*final(socket), *old(socket))
                &&& tx_queue(*final(socket)) == tx_queue(*old(socket))
                &&& if open_in(tcp_state(*old(socket))) {
                    m@ == "invalid state"@
                } else {
                    &&& !addressable(target, local_port, *old(iface))
                    &&& m@ == "unaddressable destination"@
                }
            },
        },
{
    let remote = (IpAddress::Ipv4(Ipv4Address::from(target.ip.bits)), target.port);
    socket.connect(iface.context(), remote, local_port).map_err(|e| e.to_string())
}

/// `Socket::may_send` of `smoltcp`: whether the transmit half of the connection is open.
#[verifier::external_body]
fn may_send(socket: &tcp::Socket<'_>) -> (r: bool)
    ensures
        r == may_send_in(tcp_state(*socket)),
{
    socket.may_send()
}

/// `Socket::can_send` of `smoltcp`: whether the transmit half of the connection is open and
/// the transmit buffer is not full.
#[verifier::external_body]
fn can_send(socket: &tcp::Socket<'_>) -> (r: bool)
    ensures
        r == (may_send_in(tcp_state(*socket)) && tx_queue(*socket).len() < tx_capacity(*socket)),
{
    socket.can_send()
}

/// `Socket::send_slice` of `smoltcp`: puts as much of the data into the transmit buffer as
/// fits behind what is there, and says how much that was; fails, and does nothing, where the
/// transmit half is not open.
#[verifier::external_body]
fn send_slice(socket: &mut tcp::Socket<'_>, data: &[u8]) -> (r: Option<usize>)
    ensures
        same_but_tx(*final(socket), *old(socket)),
        match r {
            None => {
                &&& !may_send_in(tcp_state(*old(socket)))
                &&& tx_queue(*final(socket)) == tx_queue(*old(socket))
            },
            Some(n) => {
                &&& may_send_in(tcp_state(*old(socket)))
                &&& n <= data@.len()
                &&& n > 0 ==> tx_queue(*final(socket)).len() <= tx_capacity(*old(socket))
                &&& n < data@.len() ==> tx_queue(*final(socket)).len() == tx_capacity(
                    *old(socket),
                )
                &&& tx_queue(*final(socket)) == tx_queue(*old(socket)) + data@.take(n as int)
            },
        },
{
    socket.send_slice(data).ok()
}

/// `Socket::can_recv` of `smoltcp`: says yes only where there is something in the receive
/// buffer, and says yes where there is.
#[verifier::external_body]
fn can_recv(socket: &tcp::Socket<'_>) -> (r: bool)
    ensures
        r == receivable(rx_queue(*socket)),
{
    socket.can_recv()
}

/// `Socket::recv_slice` of `smoltcp`, with a buffer of the given size: takes from the front of
/// the receive buffer as much as fits; fails, and does nothing, only where the receive buffer
/// is empty.
#[verifier::external_body]
fn recv_chunk(socket: &mut tcp::Socket<'_>, limit: usize) -> (r: Option<Vec<u8>>)
    ensures
        tx_queue(*final(socket)) == tx_queue(*old(socket)),
        tx_capacity(*final(socket)) == tx_capacity(*old(socket)),
        rx_capacity(*final(socket)) == rx_capacity(*old(socket)),
        tcp_state(*final(socket)) == tcp_state(*old(socket)),
        tcp_ends(*final(socket)) == tcp_ends(*old(socket)),
        match r {
            None => {
                &&& !receivable(rx_queue(*old(socket)))
                &&& rx_queue(*final(socket)) == rx_queue(*old(socket))
            },
            Some(chunk) => {
                &&& chunk@.len() <= limit
                &&& chunk@.len() < limit ==> rx_queue(*final(socket)).len() == 0
                &&& rx_queue(*old(socket)) == chunk@ + rx_queue(*final(socket))
            },
        },
{
    let mut buf = vec![0u8; limit];
    socket.recv_slice(&mut buf).ok().map(|n| buf[..n].to_vec())
}

/// `Socket::close` of `smoltcp`: closes the transmit half of the connection, as far as it is
/// open; what is in the buffers stays there.
#[verifier::external_body]
fn close_socket(socket: &mut tcp::Socket<'_>)
    ensures
        tx_queue(*final(socket)) == tx_queue(*old(socket)),
        tx_capacity(*final(socket)) == tx_capacity(*old(socket)),
        rx_capacity(*final(socket)) == rx_capacity(*old(socket)),
        rx_queue(*final(socket)) == rx_queue(*old(socket)),
        tcp_ends(*final(socket)) == tcp_ends(*old(socket)),
        tcp_state(*final(socket)) == closed_state(tcp_state(*old(socket))),
{
    socket.close()
}

/// `Socket::is_open` of `smoltcp`: whether there is a connection, or one may come about.
#[verifier::external_body]
fn is_open(socket: &tcp::Socket<'_>) -> (r: bool)
    ensures
        r == open_in(tcp_state(*socket)),
{
    socket.is_open()
}

// ---------------------------------------------------------------------------
// Connections
// ---------------------------------------------------------------------------

/// A connection: its socket, what is waiting to be sent on it, and whether it is to be closed.
/// The link is what the owner of the table keeps with it.
#[derive(Debug)]
pub struct Connection<L> {
    pub handle: SocketHandle,
    pub link: L,
    pub pending_send: VecDeque<Vec<u8>>,
    pub close_requested: bool,
}

/// The octets of several pieces, one behind the other.
pub open spec fn flat(pieces: Seq<Seq<u8>>) -> Seq<u8>
    decreases pieces.len(),
{
    if pieces.len() == 0 {
        Seq::empty()
    } else {
        pieces[0] + flat(pieces.skip(1))
    }
}

/// Moves what is waiting into the socket, as far as it fits and in its order.
pub fn pump_pending_sends<L>(socket: &mut tcp::Socket<'_>, conn: &mut Connection<L>)
    ensures
        same_but_tx(*final(socket), *old(socket)),
        tx_queue(*final(socket)) + flat(text::views(final(conn).pending_send@)) == tx_queue(
            *old(socket),
        ) + flat(text::views(old(conn).pending_send@)),
        final(conn).pending_send@.len() > 0 ==> {
            ||| !may_send_in(tcp_state(*final(socket)))
            ||| tx_queue(*final(socket)).len() >= tx_capacity(*final(socket))
        },
        tx_queue(*old(socket)).len() <= tx_capacity(*old(socket)) ==> tx_queue(
            *final(socket),
        ).len() <= tx_capacity(*final(socket)),
        !may_send_in(tcp_state(*old(socket))) ==> tx_queue(*final(socket)) == tx_queue(
            *old(socket),
        ) && final(conn).pending_send == old(conn).pending_send,
        final(conn).close_requested == old(conn).close_requested,
        final(conn).handle == old(conn).handle,
        final(conn).link == old(conn).link,
{
    let ghost all = tx_queue(*socket) + flat(text::views(conn.pending_send@));
    let mut more = true;
    while more
        invariant
            same_but_tx(*socket, *old(socket)),
            tx_queue(*socket) + flat(text::views(conn.pending_send@)) == all,
            conn.close_requested == old(conn).close_requested,
            conn.handle == old(conn).handle,
            conn.link == old(conn).link,
            tx_queue(*old(socket)).len() <= tx_capacity(*old(socket)) ==> tx_queue(*socket).len()
                <= tx_capacity(*socket),
            !may_send_in(tcp_state(*socket)) ==> tx_queue(*socket) == tx_queue(*old(socket))
                && conn.pending_send == old(conn).pending_send,
            !more && conn.pending_send@.len() > 0 ==> {
                ||| !may_send_in(tcp_state(*socket))
                ||| tx_queue(*socket).len() >= tx_capacity(*socket)
            },
        decreases
            conn.pending_send@.len(),
            if more {
                1int
            } else {
                0int
            },
    {
        if !can_send(socket) {
            more = false;
        } else {
            let ghost before = conn.pending_send@;
            match conn.pending_send.pop_front() {
                None => {
                    more = false;
                },
                Some(chunk) => {
                    assert(text::views(conn.pending_send@) =~= text::views(before).skip(1));
                    match send_slice(socket, chunk.as_slice()) {
                        Some(sent) => {
                            let n: usize = chunk.len();
                            if sent < n {
                                let rest = vstd::slice::slice_to_vec(
                                    vstd::slice::slice_subrange(chunk.as_slice(), sent, n),
                                );
                                assert(chunk@ =~= chunk@.take(sent as int) + rest@);
                                let ghost behind = conn.pending_send@;
                                conn.pending_send.push_front(rest);
                                assert(conn.pending_send@[0] == rest);
                                assert(text::views(conn.pending_send@).skip(1) =~= text::views(
                                    behind,
                                ));
                                more = false;
                            } else {
                                assert(chunk@.take(sent as int) =~= chunk@);
                            }
                            assert(tx_queue(*socket) + flat(text::views(conn.pending_send@))
                                =~= all);
                        },
                        None => {
                            conn.close_requested = true;
                            more = false;
                        },
                    }
                },
            }
        }
    }
}

/// The next octets that a socket has received, to be handed to the client: as many as there
/// are, up to the size of a chunk; nothing where there are none.
pub fn pump_uplink_reads(socket: &mut tcp::Socket<'_>) -> (r: Option<Vec<u8>>)
    ensures
        tx_queue(*final(socket)) == tx_queue(*old(socket)),
        tx_capacity(*final(socket)) == tx_capacity(*old(socket)),
        rx_capacity(*final(socket)) == rx_capacity(*old(socket)),
        tcp_state(*final(socket)) == tcp_state(*old(socket)),
        tcp_ends(*final(socket)) == tcp_ends(*old(socket)),
        match r {
            None => !receivable(rx_queue(*old(socket))) && rx_queue(*final(socket)) == rx_queue(
                *old(socket),
            ),
            Some(chunk) => {
                &&& 0 < chunk@.len() <= UPLINK_CHUNK
                &&& chunk@.len() < UPLINK_CHUNK ==> rx_queue(*final(socket)).len() == 0
                &&& rx_queue(*old(socket)) == chunk@ + rx_queue(*final(socket))
            },
        },
{
    if !can_recv(socket) {
        return None;
    }
    match recv_chunk(socket, UPLINK_CHUNK) {
        Some(chunk) => if chunk.len() == 0 {
            None
        } else {
            Some(chunk)
        },
        None => None,
    }
}

impl<L> Connection<L> {
    /// A new connection.
    pub fn new(handle: SocketHandle, link: L) -> (r: Self)
        ensures
            r.handle == handle,
            r.link == link,
            r.pending_send@.len() == 0,
            !r.close_requested,
    {
        Connection { handle, link, pending_send: VecDeque::new(), close_requested: false }
    }
}

/// Closes a connection that is to be closed, as soon as it may be; says whether it is over
/// and to be forgotten.
pub fn drive_connection<L>(socket: &mut tcp::Socket<'_>, conn: &Connection<L>) -> (r: bool)
    ensures
        tx_queue(*final(socket)) == tx_queue(*old(socket)),
        rx_queue(*final(socket)) == rx_queue(*old(socket)),
        tx_capacity(*final(socket)) == tx_capacity(*old(socket)),
        rx_capacity(*final(socket)) == rx_capacity(*old(socket)),
        tcp_ends(*final(socket)) == tcp_ends(*old(socket)),
        tcp_state(*final(socket)) == if conn.close_requested && may_send_in(
            tcp_state(*old(socket)),
        ) {
            closed_state(tcp_state(*old(socket)))
        } else {
            tcp_state(*old(socket))
        },
        r == !open_in(tcp_state(*final(socket))),
{
    if conn.close_requested && may_send(socket) {
        close_socket(socket);
    }
    !is_open(socket)
}

/// The connections of a tunnel, each with a number of its own.
#[derive(Debug)]
pub struct ConnectionTable<L> {
    pub next_id: u64,
    pub entries: Vec<(u64, Connection<L>)>,
}

/// A connection as plain values.
pub ghost struct ConnectionView<L> {
    pub handle: SocketHandle,
    pub link: L,
    pub pending: Seq<Seq<u8>>,
    pub close_requested: bool,
}

/// A table as plain values.
pub ghost struct TableView<L> {
    pub next_id: u64,
    pub connections: Map<u64, ConnectionView<L>>,
}

impl<L> Connection<L> {
    /// The connection as plain values.
    pub open spec fn shown(self) -> ConnectionView<L> {
        ConnectionView {
            handle: self.handle,
            link: self.link,
            pending: text::views(self.pending_send@),
            close_requested: self.close_requested,
        }
    }
}

/// What a list of connections with different numbers holds.
pub open spec fn connection_map<L>(e: Seq<(u64, Connection<L>)>) -> Map<u64, ConnectionView<L>>
    decreases e.len(),
{
    if e.len() == 0 {
        Map::empty()
    } else {
        connection_map(e.drop_last()).insert(e.last().0, e.last().1.shown())
    }
}

/// No number is used twice.
pub open spec fn distinct_ids<L>(e: Seq<(u64, Connection<L>)>) -> bool {
    forall|i: int, j: int| 0 <= i < j < e.len() ==> (#[trigger] e[i]).0 != (#[trigger] e[j]).0
}

impl<L> View for ConnectionTable<L> {
    type V = TableView<L>;

    open spec fn view(&self) -> TableView<L> {
        TableView { next_id: self.next_id, connections: connection_map(self.entries@) }
    }
}

proof fn lemma_map_has<L>(e: Seq<(u64, Connection<L>)>, i: int)
    requires
        distinct_ids(e),
        0 <= i < e.len(),
    ensures
        connection_map(e).contains_key(e[i].0),
        connection_map(e)[e[i].0] == e[i].1.shown(),
    decreases e.len(),
{
    if i < e.len() - 1 {
        lemma_map_has(e.drop_last(), i);
        assert(e.drop_last()[i] == e[i]);
    }
}

proof fn lemma_map_lacks<L>(e: Seq<(u64, Connection<L>)>, id: u64)
    requires
        forall|i: int| 0 <= i < e.len() ==> (#[trigger] e[i]).0 != id,
    ensures
        !connection_map(e).contains_key(id),
    decreases e.len(),
{
    if e.len() > 0 {
        lemma_map_lacks(e.drop_last(), id);
    }
}

proof fn lemma_map_remove<L>(e: Seq<(u64, Connection<L>)>, i: int)
    requires
        distinct_ids(e),
        0 <= i < e.len(),
    ensures
        distinct_ids(e.remove(i)),
        forall|j: int| 0 <= j < e.len() - 1 ==> (#[trigger] e.remove(i)[j]).0 != e[i].0,
        connection_map(e.remove(i)) == connection_map(e).remove(e[i].0),
    decreases e.len(),
{
    assert forall|j: int| 0 <= j < e.len() - 1 implies (#[trigger] e.remove(i)[j]).0 != e[i].0 by {
        if j < i {
            assert(e.remove(i)[j] == e[j]);
        } else {
            assert(e.remove(i)[j] == e[j + 1]);
        }
    }
    if i == e.len() - 1 {
        assert(e.remove(i) =~= e.drop_last());
        lemma_map_lacks(e.drop_last(), e[i].0);
        assert(connection_map(e.drop_last()) =~= connection_map(e).remove(e[i].0));
    } else {
        lemma_map_remove(e.drop_last(), i);
        assert(e.remove(i).drop_last() =~= e.drop_last().remove(i));
        assert(e.drop_last()[i] == e[i]);
        assert(e.remove(i).last() == e.last());
        assert(connection_map(e.remove(i)) =~= connection_map(e).remove(e[i].0));
    }
}

proof fn lemma_map_update<L>(e: Seq<(u64, Connection<L>)>, i: int, c: Connection<L>)
    requires
        distinct_ids(e),
        0 <= i < e.len(),
    ensures
        distinct_ids(e.update(i, (e[i].0, c))),
        connection_map(e.update(i, (e[i].0, c))) == connection_map(e).insert(e[i].0, c.shown()),
    decreases e.len(),
{
    let changed = e.update(i, (e[i].0, c));
    if i == e.len() - 1 {
        assert(changed.drop_last() =~= e.drop_last());
        assert(connection_map(changed) =~= connection_map(e).insert(e[i].0, c.shown()));
    } else {
        lemma_map_update(e.drop_last(), i, c);
        assert(changed.drop_last() =~= e.drop_last().update(i, (e[i].0, c)));
        assert(connection_map(changed) =~= connection_map(e).insert(e[i].0, c.shown()));
    }
}

/// A request about a connection that is there already.
#[derive(Debug)]
pub enum ControlMessage {
    /// Send these octets.
    Send { id: u64, data: Vec<u8> },
    /// Close it.
    Close { id: u64 },
}

impl<L> TableView<L> {
    /// The table after a request; one about a connection that is not there does nothing.
    pub open spec fn after(self, msg: ControlMessage) -> TableView<L> {
        let (id, changed) = match msg {
            ControlMessage::Send { id, data } => (
                id,
                ConnectionView {
                    pending: self.connections[id].pending.push(data@),
                    ..self.connections[id]
                },
            ),
            ControlMessage::Close { id } => (
                id,
                ConnectionView { close_requested: true, ..self.connections[id] },
            ),
        };
        if self.connections.contains_key(id) {
            TableView { connections: self.connections.insert(id, changed), ..self }
        } else {
            self
        }
    }

    /// The table with a new connection in it.
    pub open spec fn with_new(self, handle: SocketHandle, link: L) -> TableView<L> {
        TableView {
            next_id: (if self.next_id == u64::MAX {
                0
            } else {
                self.next_id + 1
            }) as u64,
            connections: self.connections.insert(
                self.next_id,
                ConnectionView { handle, link, pending: Seq::empty(), close_requested: false },
            ),
        }
    }

    /// The table without a connection.
    pub open spec fn without(self, id: u64) -> TableView<L> {
        TableView { connections: self.connections.remove(id), ..self }
    }
}

impl<L> ConnectionTable<L> {
    /// No number is used twice.
    pub open spec fn wf(&self) -> bool {
        distinct_ids(self.entries@)
    }

    /// A table with nothing in it.
    pub fn new() -> (r: Self)
        ensures
            r.wf(),
            r@.next_id == FIRST_CONNECTION_ID,
            r@.connections == Map::<u64, ConnectionView<L>>::empty(),
    {
        ConnectionTable { next_id: FIRST_CONNECTION_ID, entries: Vec::new() }
    }

    /// The numbers of the connections.
    pub fn ids(&self) -> (r: Vec<u64>)
        requires
            self.wf(),
        ensures
            r@.no_duplicates(),
            forall|id: u64| r@.contains(id) <==> self@.connections.contains_key(id),
    {
        let mut out: Vec<u64> = Vec::new();
        for i in 0..self.entries.len()
            invariant
                self.wf(),
                out@.len() == i,
                forall|j: int| 0 <= j < i ==> #[trigger] out@[j] == self.entries@[j].0,
        {
            out.push(self.entries[i].0);
        }
        proof {
            assert forall|id: u64| out@.contains(id) <==> self@.connections.contains_key(id) by {
                if out@.contains(id) {
                    let j = choose|j: int| 0 <= j < out@.len() && out@[j] == id;
                    lemma_map_has(self.entries@, j);
                } else {
                    assert forall|j: int| 0 <= j < self.entries@.len() implies (
                    #[trigger] self.entries@[j]).0 != id by {
                        assert(out@[j] == self.entries@[j].0);
                    }
                    lemma_map_lacks(self.entries@, id);
                }
            }
        }
        out
    }

    fn position(&self, id: u64) -> (r: Option<usize>)
        requires
            self.wf(),
        ensures
            match r {
                Some(i) => {
                    &&& i < self.entries@.len()
                    &&& self.entries@[i as int].0 == id
                    &&& self@.connections.contains_key(id)
                    &&& self@.connections[id] == self.entries@[i as int].1.shown()
                },
                None => {
                    &&& !self@.connections.contains_key(id)
                    &&& forall|j: int|
                        0 <= j < self.entries@.len() ==> (#[trigger] self.entries@[j]).0 != id
                },
            },
    {
        for i in 0..self.entries.len()
            invariant
                self.wf(),
                forall|j: int| 0 <= j < i ==> (#[trigger] self.entries@[j]).0 != id,
        {
            if self.entries[i].0 == id {
                proof {
                    lemma_map_has(self.entries@, i as int);
                }
                return Some(i);
            }
        }
        proof {
            lemma_map_lacks(self.entries@, id);
        }
        None
    }

    /// The connection that has the number.
    pub fn find(&self, id: u64) -> (r: Option<&Connection<L>>)
        requires
            self.wf(),
        ensures
            match r {
                Some(c) => self@.connections.contains_key(id) && self@.connections[id]
                    == c.shown(),
                None => !self@.connections.contains_key(id),
            },
    {
        match self.position(id) {
            Some(i) => Some(&self.entries[i].1),
            None => None,
        }
    }

    /// Forgets a connection, and hands it out if it was there.
    pub fn remove(&mut self, id: u64) -> (r: Option<Connection<L>>)
        requires
            old(self).wf(),
        ensures
            final(self).wf(),
            final(self)@ == old(self)@.without(id),
            match r {
                Some(c) => old(self)@.connections.contains_key(id) && old(self)@.connections[id]
                    == c.shown(),
                None => !old(self)@.connections.contains_key(id),
            },
    {
        match self.position(id) {
            Some(i) => {
                proof {
                    lemma_map_remove(self.entries@, i as int);
                }
                let (_, c) = self.entries.remove(i);
                Some(c)
            },
            None => {
                assert(self@.connections.remove(id) =~= self@.connections);
                None
            },
        }
    }

    /// Takes a new connection, which gets the next number.
    pub fn insert(&mut self, handle: SocketHandle, link: L) -> (r: u64)
        requires
            old(self).wf(),
        ensures
            final(self).wf(),
            r == old(self)@.next_id,
            final(self)@ == old(self)@.with_new(handle, link),
    {
        let ghost before = self@;
        let id: u64 = self.next_id;
        let _replaced = self.remove(id);
        assert(!self@.connections.contains_key(id));
        let ghost rest = self.entries@;
        proof {
            assert forall|j: int| 0 <= j < rest.len() implies (#[trigger] rest[j]).0 != id by {
                lemma_map_has(rest, j);
            }
        }
        let connection = Connection::new(handle, link);
        assert(text::views(connection.pending_send@) =~= Seq::<Seq<u8>>::empty());
        self.entries.push((id, connection));
        self.next_id = if id == u64::MAX {
            0
        } else {
            id + 1
        };
        assert(self.entries@.drop_last() =~= rest);
        assert(self@.connections =~= before.with_new(handle, link).connections);
        id
    }

    /// Takes a request about a connection.
    pub fn handle_control_message(&mut self, msg: ControlMessage)
        requires
            old(self).wf(),
        ensures
            final(self).wf(),
            final(self)@ == old(self)@.after(msg),
    {
        let id: u64 = match &msg {
            ControlMessage::Send { id, data: _ } => *id,
            ControlMessage::Close { id } => *id,
        };
        match self.position(id) {
            None => {},
            Some(i) => {
                let ghost before = self.entries@;
                let (_, mut c) = self.entries.remove(i);
                match msg {
                    ControlMessage::Send { id: _, data } => {
                        proof {
                            text::lemma_views_push(c.pending_send@, data);
                        }
                        c.pending_send.push_back(data);
                    },
                    ControlMessage::Close { id: _ } => {
                        c.close_requested = true;
                    },
                }
                proof {
                    lemma_map_update(before, i as int, c);
                }
                self.entries.insert(i, (id, c));
                assert(self.entries@ =~= before.update(i as int, (id, c)));
            },
        }
    }
}

// ---------------------------------------------------------------------------
// The stack
// ---------------------------------------------------------------------------

/// The connections together with their sockets.
#[derive(Debug)]
pub struct Netstack<L> {
    pub sockets: SocketSet<'static>,
    pub connections: ConnectionTable<L>,
    pub next_local_port: u16,
}

/// Every connection has a socket, and no two have the same.
pub open spec fn have_sockets<L>(
    connections: Map<u64, ConnectionView<L>>,
    sockets: Map<SocketHandle, tcp::Socket<'static>>,
) -> bool {
    &&& forall|a: u64|
        connections.contains_key(a) ==> sockets.contains_key((#[trigger] connections[a]).handle)
    &&& forall|a: u64, b: u64|
        connections.contains_key(a) && connections.contains_key(b) && a != b ==> (
        #[trigger] connections[a]).handle != (#[trigger] connections[b]).handle
}

/// The socket is about to connect to the target from the local port, with nothing sent or
/// received yet and with buffers of full size for both directions.
pub open spec fn connecting(s: tcp::Socket<'_>, target: SocketAddrV4, local_port: u16) -> bool {
    &&& tcp_state(s) is SynSent
    &&& tcp_ends(s) == Some((target, local_port))
    &&& tx_queue(s).len() == 0
    &&& rx_queue(s).len() == 0
    &&& tx_capacity(s) == SOCKET_BUFFER_CAPACITY
    &&& rx_capacity(s) == SOCKET_BUFFER_CAPACITY
}

/// What happened to a connection that is being driven.
#[derive(Debug, Clone, Copy, PartialEq, Eq, Structural)]
pub enum DriveEvent {
    /// Its turn has come.
    Begin,
    /// The client has taken what was received.
    Taken,
    /// The client is gone.
    Lost,
}

/// What to do with a connection that is being driven.
#[derive(Debug)]
pub enum DriveStep {
    /// Hand this to the client.
    Deliver(Vec<u8>),
    /// Go on to the next connection; this one is over, or is not.
    Settled { over: bool },
}

/// How a connection and its socket stand after a step of driving them.
pub open spec fn driven<L>(
    c: ConnectionView<L>,
    s: tcp::Socket<'_>,
    event: DriveEvent,
    d: ConnectionView<L>,
    t: tcp::Socket<'_>,
    step: DriveStep,
) -> bool {
    &&& d.handle == c.handle
    &&& d.link == c.link
    &&& d.close_requested == (c.close_requested || event == DriveEvent::Lost)
    &&& tcp_ends(t) == tcp_ends(s)
    &&& tx_capacity(t) == tx_capacity(s)
    &&& rx_capacity(t) == rx_capacity(s)
    &&& if event == DriveEvent::Begin && may_send_in(tcp_state(s)) {
        &&& tx_queue(t) + flat(d.pending) == tx_queue(s) + flat(c.pending)
        &&& d.pending.len() > 0 ==> tx_queue(t).len() >= tx_capacity(t)
        &&& tx_queue(s).len() <= tx_capacity(s) ==> tx_queue(t).len() <= tx_capacity(t)
    } else {
        &&& tx_queue(t) == tx_queue(s)
        &&& d.pending == c.pending
    }
    &&& match step {
        DriveStep::Deliver(chunk) => {
            &&& event != DriveEvent::Lost
            &&& 0 < chunk@.len() <= UPLINK_CHUNK
            &&& chunk@.len() < UPLINK_CHUNK ==> rx_queue(t).len() == 0
            &&& rx_queue(s) == chunk@ + rx_queue(t)
            &&& tcp_state(t) == tcp_state(s)
        },
        DriveStep::Settled { over } => {
            &&& event == DriveEvent::Lost || rx_queue(s).len() == 0
            &&& rx_queue(t) == rx_queue(s)
            &&& tcp_state(t) == if d.close_requested && may_send_in(tcp_state(s)) {
                closed_state(tcp_state(s))
            } else {
                tcp_state(s)
            }
            &&& over == !open_in(tcp_state(t))
        },
    }
}

impl<L> Netstack<L> {
    /// Every connection has a socket of its own, and there is room for more.
    pub open spec fn wf(&self) -> bool {
        &&& may_grow(self.sockets)
        &&& self.connections.wf()
        &&& have_sockets(self.connections@.connections, tcp_sockets(self.sockets))
        &&& FIRST_LOCAL_PORT <= self.next_local_port <= LAST_LOCAL_PORT
    }

    /// A stack without connections.
    pub fn new() -> (r: Self)
        ensures
            r.wf(),
            r.connections@.next_id == FIRST_CONNECTION_ID,
            r.connections@.connections == Map::<u64, ConnectionView<L>>::empty(),
            r.next_local_port == FIRST_LOCAL_PORT,
    {
        Netstack {
            sockets: new_socket_set(),
            connections: ConnectionTable::new(),
            next_local_port: FIRST_LOCAL_PORT,
        }
    }

    /// Opens a connection to a target, with a socket of its own and from the next local port.
    /// A target that cannot be addressed leaves nothing behind.
    pub fn open_connection(&mut self, iface: &mut Interface, target: SocketAddrV4, link: L) -> (r:
        EcResult<u64>)
        requires
            old(self).wf(),
        ensures
            final(self).wf(),
            has_ipv4(*final(iface)) == has_ipv4(*old(iface)),
            final(self).next_local_port == port_after(old(self).next_local_port as int),
            if addressable(target, old(self).next_local_port, *old(iface)) {
                let id = old(self).connections@.next_id;
                let handle = final(self).connections@.connections[id].handle;
                let before = tcp_sockets(old(self).sockets);
                let after = tcp_sockets(final(self).sockets);
                &&& r == Ok::<u64, EcError>(id)
                &&& final(self).connections@ == old(self).connections@.with_new(handle, link)
                &&& !before.contains_key(handle)
                &&& after == before.insert(handle, after[handle])
                &&& connecting(after[handle], target, old(self).next_local_port)
            } else {
                &&& r matches Err(e)
                &&& e@ == EcErrorView::Runtime("tcp connect failed: unaddressable destination"@)
                &&& final(self).connections@ == old(self).connections@
                &&& tcp_sockets(final(self).sockets) == tcp_sockets(old(self).sockets)
            },
    {
        let ghost before = tcp_sockets(self.sockets);
        let ghost table = self.connections@;
        let socket = new_tcp_socket(SOCKET_BUFFER_CAPACITY, SOCKET_BUFFER_CAPACITY);
        let handle = add_socket(&mut self.sockets, socket);
        let local_port: u16 = alloc_local_port(&mut self.next_local_port);
        let made = connect_socket(
            tcp_socket(&mut self.sockets, handle),
            iface,
            target,
            local_port,
        );
        match made {
            Ok(_) => {
                let id = self.connections.insert(handle, link);
                let ghost after = tcp_sockets(self.sockets);
                assert(after =~= before.insert(handle, after[handle]));
                assert(self.connections@.connections[id].handle == handle);
                assert forall|a: u64|
                    self.connections@.connections.contains_key(a) && a != id implies (
                #[trigger] self.connections@.connections[a]) == table.connections[a]
                    && table.connections.contains_key(a) by {}
                Ok(id)
            },
            Err(m) => {
                remove_socket(&mut self.sockets, handle);
                assert(tcp_sockets(self.sockets) =~= before);
                proof {
                    reveal_strlit("tcp connect failed: ");
                    reveal_strlit("unaddressable destination");
                    reveal_strlit("tcp connect failed: unaddressable destination");
                    assert("tcp connect failed: "@ + m@
                        =~= "tcp connect failed: unaddressable destination"@);
                }
                Err(EcError::Runtime("tcp connect failed: ".to_owned().concat(m.as_str())))
            },
        }
    }

    /// Takes a request about a connection.
    pub fn handle_control_message(&mut self, msg: ControlMessage)
        requires
            old(self).wf(),
        ensures
            final(self).wf(),
            final(self).connections@ == old(self).connections@.after(msg),
            final(self).sockets == old(self).sockets,
            final(self).next_local_port == old(self).next_local_port,
    {
        let ghost before = self.connections@;
        self.connections.handle_control_message(msg);
        assert forall|a: u64| self.connections@.connections.contains_key(a) implies (
        #[trigger] self.connections@.connections[a]).handle == before.connections[a].handle
            && before.connections.contains_key(a) by {}
    }

    /// Forgets a connection and its socket; one that is not there is forgotten already.
    pub fn forget(&mut self, id: u64)
        requires
            old(self).wf(),
        ensures
            final(self).wf(),
            final(self).connections@ == old(self).connections@.without(id),
            tcp_sockets(final(self).sockets) == if old(self).connections@.connections.contains_key(
                id,
            ) {
                tcp_sockets(old(self).sockets).remove(
                    old(self).connections@.connections[id].handle,
                )
            } else {
                tcp_sockets(old(self).sockets)
            },
            final(self).next_local_port == old(self).next_local_port,
    {
        let ghost before = self.connections@;
        match self.connections.remove(id) {
            Some(c) => {
                remove_socket(&mut self.sockets, c.handle);
                assert forall|a: u64| self.connections@.connections.contains_key(a) implies (
                #[trigger] self.connections@.connections[a]) == before.connections[a]
                    && before.connections.contains_key(a) && a != id by {}
            },
            None => {
                assert(self.connections@.connections =~= before.connections);
            },
        }
    }

    /// Drives a connection: first what is waiting goes into its socket, then what the socket
    /// has received goes to the client, piece by piece, and then the connection is closed if
    /// it is to be. A connection whose client is gone is to be closed.
    pub fn drive_connection(&mut self, id: u64, event: DriveEvent) -> (r: DriveStep)
        requires
            old(self).wf(),
            old(self).connections@.connections.contains_key(id),
        ensures
            final(self).wf(),
            final(self).next_local_port == old(self).next_local_port,
            final(self).connections@.next_id == old(self).connections@.next_id,
            ({
                let c = old(self).connections@.connections[id];
                let d = final(self).connections@.connections[id];
                let s = tcp_sockets(old(self).sockets)[c.handle];
                let t = tcp_sockets(final(self).sockets)[c.handle];
                &&& final(self).connections@.connections == old(
                    self,
                ).connections@.connections.insert(id, d)
                &&& tcp_sockets(final(self).sockets) == tcp_sockets(old(self).sockets).insert(
                    c.handle,
                    t,
                )
                &&& driven(c, s, event, d, t, r)
            }),
    {
        let ghost table = self.connections@;
        let ghost before = tcp_sockets(self.sockets);
        let ghost entries = self.connections.entries@;
        let i: usize = match self.connections.position(id) {
            Some(i) => i,
            None => {
                assert(false);
                0
            },
        };
        let (_, mut conn) = self.connections.entries.remove(i);
        let ghost c = conn.shown();
        let handle = conn.handle;
        let socket = tcp_socket(&mut self.sockets, handle);
        if event == DriveEvent::Begin {
            pump_pending_sends(socket, &mut conn);
        }
        let chunk = match event {
            DriveEvent::Lost => {
                conn.close_requested = true;
                None
            },
            _ => pump_uplink_reads(socket),
        };
        let step = match chunk {
            Some(bytes) => DriveStep::Deliver(bytes),
            None => DriveStep::Settled { over: self::drive_connection(socket, &conn) },
        };
        proof {
            lemma_map_update(entries, i as int, conn);
        }
        self.connections.entries.insert(i, (id, conn));
        assert(self.connections.entries@ =~= entries.update(i as int, (id, conn)));
        step
    }
}

// ---------------------------------------------------------------------------
// Messages
// ---------------------------------------------------------------------------

/// What came of asking for a message.
#[derive(Debug, Clone, Copy, PartialEq, Eq, Structural)]
pub enum ControlEvent {
    /// There was one.
    Message,
    /// There was none in time.
    Nothing,
    /// There will be none any more.
    Disconnected,
}

/// The messages that are taken before the stack is polled and the connections are driven.
#[derive(Debug)]
pub struct ControlBatch {
    pub taken: usize,
}

impl ControlBatch {
    /// The batch may still grow, or has just reached its size.
    pub open spec fn wf(&self) -> bool {
        self.taken <= MAX_CONTROL_BATCH
    }

    /// An empty batch.
    pub fn new() -> (r: Self)
        ensures
            r.taken == 0,
            r.wf(),
    {
        ControlBatch { taken: 0 }
    }

    /// Takes what came of asking for a message; says whether to ask for another one. A batch
    /// ends when there is no message left or its size is reached.
    pub fn run_netstack_loop(&mut self, event: ControlEvent) -> (r: EcResult<bool>)
        requires
            old(self).taken < MAX_CONTROL_BATCH,
        ensures
            final(self).wf(),
            match event {
                ControlEvent::Message => {
                    &&& final(self).taken == old(self).taken + 1
                    &&& r == Ok::<bool, EcError>(final(self).taken < MAX_CONTROL_BATCH)
                },
                ControlEvent::Nothing => {
                    &&& final(self).taken == old(self).taken
                    &&& r == Ok::<bool, EcError>(false)
                },
                ControlEvent::Disconnected => {
                    &&& final(self).taken == old(self).taken
                    &&& r matches Err(e)
                    &&& e@ == EcErrorView::Runtime("netstack control channel disconnected"@)
                },
            },
    {
        match event {
            ControlEvent::Message => {
                self.taken = self.taken + 1;
                Ok(self.taken < MAX_CONTROL_BATCH)
            },
            ControlEvent::Nothing => Ok(false),
            ControlEvent::Disconnected => Err(control_channel_disconnected_err()),
        }
    }
}

// ---------------------------------------------------------------------------
// Ports, seeds and addresses
// ---------------------------------------------------------------------------

/// The local port for a new connection; ports come in turn, and the lowest follows the
/// highest.
pub fn alloc_local_port(next: &mut u16) -> (r: u16)
    ensures
        r == *old(next),
        *final(next) == if *old(next) >= LAST_LOCAL_PORT {
            FIRST_LOCAL_PORT as int
        } else {
            *old(next) + 1
        },
{
    let port: u16 = *next;
    *next = if port >= LAST_LOCAL_PORT {
        FIRST_LOCAL_PORT
    } else {
        port + 1
    };
    port
}

/// The seed of the network stack: the time in nanoseconds, or a fixed number where the clock
/// cannot be read.
pub fn netstack_random_seed(nanos: Option<u64>) -> (r: u64)
    ensures
        r == match nanos {
            Some(n) => n,
            None => 0x6e6574737461636bu64,
        },
{
    match nanos {
        Some(n) => n,
        None => 0x6e6574737461636b,
    }
}

/// Whether connections can be carried at all; they always can.
pub fn validate_netstack_preconditions() -> (r: EcResult<()>)
    ensures
        r is Ok,
{
    Ok(())
}

/// The first IPv4 address among those that a target resolved to; the lookup itself may have
/// failed, in the given words.
pub fn resolve_ipv4_target(target: &str, addrs: Result<Vec<SocketAddr>, String>) -> (r: EcResult<
    SocketAddrV4,
>)
    ensures
        match addrs {
            Err(m) => r matches Err(e) && e@ == EcErrorView::Runtime(
                "resolve target failed: "@ + target@ + ": "@ + m@,
            ),
            Ok(list) => match socks::first_v4(text::views(list@)) {
                Some(a) => r == Ok::<SocketAddrV4, EcError>(a),
                None => r matches Err(e) && e@ == EcErrorView::Runtime(
                    "no ipv4 address resolved for "@ + target@,
                ),
            },
        },
{
    match addrs {
        Err(m) => Err(
            EcError::Runtime(
                "resolve target failed: ".to_owned().concat(target).concat(": ").concat(
                    m.as_str(),
                ),
            ),
        ),
        Ok(list) => match socks::pick_v4(&list) {
            Some(a) => Ok(a),
            None => Err(
                EcError::Runtime("no ipv4 address resolved for ".to_owned().concat(target)),
            ),
        },
    }
}

/// The error when nobody is left to ask for connections.
pub fn control_channel_disconnected_err() -> (r: EcError)
    ensures
        r@ == EcErrorView::Runtime("netstack control channel disconnected"@),
{
    EcError::Runtime("netstack control channel disconnected".to_owned())
}

/// The text says that nobody takes packets any more.
pub open spec fn says_closed(detail: Seq<char>) -> bool {
    text::first_text(detail, "sending on a closed channel"@) is Some
}

/// What is said of a packet that could not be handed to the tunnel.
pub open spec fn send_warning(detail: Seq<char>, warned: bool, fatal: Option<Seq<char>>) -> Option<
    Seq<char>,
> {
    if !says_closed(detail) {
        Some("send tunnel packet failed: "@ + detail)
    } else if warned {
        None
    } else {
        match fatal {
            Some(reason) => Some("tunnel tx channel closed after protocol stop: "@ + reason),
            None => Some("tunnel tx channel closed; dropping outbound packets"@),
        }
    }
}

/// What is said of a packet that could not be handed to the tunnel. That the tunnel is closed
/// is said once.
pub fn tunnel_send_failed(err: &EcError, warned: &mut bool, fatal: Option<&str>) -> (r: Option<
    String,
>)
    ensures
        ({
            let detail = error::concise(err@.text());
            &&& text::shown(r) == send_warning(detail, *old(warned), text::shown(fatal))
            &&& *final(warned) == (*old(warned) || says_closed(detail))
        }),
{
    let detail = error::concise_error(err);
    let cs = text::chars_of(detail.as_str());
    let mark = text::chars_of("sending on a closed channel");
    match text::find_text(cs.as_slice(), mark.as_slice()) {
        None => Some("send tunnel packet failed: ".to_owned().concat(detail.as_str())),
        Some(_) => {
            if *warned {
                return None;
            }
            *warned = true;
            match fatal {
                Some(reason) => Some(
                    "tunnel tx channel closed after protocol stop: ".to_owned().concat(reason),
                ),
                None => Some("tunnel tx channel closed; dropping outbound packets".to_owned()),
            }
        },
    }
}

// ---------------------------------------------------------------------------
// Laws
// ---------------------------------------------------------------------------

/// The next local port after the given one.
pub open spec fn port_after(port: int) -> int {
    if port >= LAST_LOCAL_PORT {
        FIRST_LOCAL_PORT as int
    } else {
        port + 1
    }
}

/// The local port that comes `n` turns after the given one.
pub open spec fn port_after_turns(port: int, n: nat) -> int
    decreases n,
{
    if n == 0 {
        port
    } else {
        port_after_turns(port_after(port), (n - 1) as nat)
    }
}

/// Local ports never leave their range.
pub proof fn law_local_ports_stay_in_range(port: int, n: nat)
    requires
        FIRST_LOCAL_PORT <= port <= LAST_LOCAL_PORT,
    ensures
        FIRST_LOCAL_PORT <= port_after_turns(port, n) <= LAST_LOCAL_PORT,
    decreases n,
{
    if n > 0 {
        law_local_ports_stay_in_range(port_after(port), (n - 1) as nat);
    }
}

/// No local port comes again before all the others have had their turn.
pub proof fn law_local_ports_take_turns(port: int, n: nat)
    requires
        FIRST_LOCAL_PORT <= port <= LAST_LOCAL_PORT,
        0 < n <= LAST_LOCAL_PORT - FIRST_LOCAL_PORT,
    ensures
        port_after_turns(port, n) != port,
{
    lemma_port_after_turns(port, n);
}

proof fn lemma_port_after_turns(port: int, n: nat)
    requires
        FIRST_LOCAL_PORT <= port <= LAST_LOCAL_PORT,
        n <= LAST_LOCAL_PORT - FIRST_LOCAL_PORT + 1,
    ensures
        port_after_turns(port, n) == if port + n <= LAST_LOCAL_PORT {
            port + n
        } else {
            port + n - (LAST_LOCAL_PORT - FIRST_LOCAL_PORT + 1)
        },
    decreases n,
{
    if n > 0 {
        lemma_port_after_turns(port_after(port), (n - 1) as nat);
    }
}

/// What is sent on a connection waits behind what was sent on it before, and no other
/// connection is touched.
pub proof fn law_sends_keep_their_order<L>(
    t: TableView<L>,
    id: u64,
    a: Vec<u8>,
    b: Vec<u8>,
    other: u64,
)
    requires
        t.connections.contains_key(id),
        other != id,
    ensures
        ({
            let after = t.after(ControlMessage::Send { id, data: a }).after(
                ControlMessage::Send { id, data: b },
            );
            &&& after.connections[id].pending == t.connections[id].pending.push(a@).push(b@)
            &&& after.connections.contains_key(other) == t.connections.contains_key(other)
            &&& t.connections.contains_key(other) ==> after.connections[other]
                == t.connections[other]
        }),
{
}

/// A connection that is driven once gives up none of its octets and mixes none up: what it had
/// to send is in the socket or waits behind it, and what it received goes to the client or
/// stays.
pub proof fn law_driving_loses_nothing<L>(
    c: ConnectionView<L>,
    s: tcp::Socket<'_>,
    event: DriveEvent,
    d: ConnectionView<L>,
    t: tcp::Socket<'_>,
    step: DriveStep,
)
    requires
        driven(c, s, event, d, t, step),
    ensures
        tx_queue(t) + flat(d.pending) == tx_queue(s) + flat(c.pending),
        rx_queue(s) == match step {
            DriveStep::Deliver(chunk) => chunk@ + rx_queue(t),
            DriveStep::Settled { over } => rx_queue(t),
        },
{
}

/// Forgetting a connection that was just opened leaves the connections as they were, if its
/// number was free.
pub proof fn law_forgetting_undoes_opening<L>(t: TableView<L>, handle: SocketHandle, link: L)
    requires
        !t.connections.contains_key(t.next_id),
    ensures
        t.with_new(handle, link).without(t.next_id).connections == t.connections,
{
    assert(t.with_new(handle, link).without(t.next_id).connections =~= t.connections);
}

/// A new connection takes the number that is next, and leaves the others as they are.
pub proof fn law_new_connections_leave_others_alone<L>(
    t: TableView<L>,
    handle: SocketHandle,
    link: L,
    other: u64,
)
    requires
        other != t.next_id,
    ensures
        ({
            let after = t.with_new(handle, link);
            &&& after.connections.contains_key(t.next_id)
            &&& after.connections[t.next_id].handle == handle
            &&& after.connections[t.next_id].link == link
            &&& after.connections.contains_key(other) == t.connections.contains_key(other)
            &&& t.connections.contains_key(other) ==> after.connections[other]
                == t.connections[other]
            &&& after.next_id != t.next_id
        }),
{
}

/// Local ports run from 40000 to 60000, and 40000 follows 60000.
pub proof fn law_local_ports_run_round(port: int)
    requires
        40000 <= port <= 60000,
    ensures
        port < 60000 ==> port_after(port) == port + 1,
        port == 60000 ==> port_after(port) == 40000,
{
}

/// A request to close marks its connection, and changes nothing else of it; a request about a
/// connection that is not there changes nothing at all.
pub proof fn law_closing_marks_the_connection<L>(t: TableView<L>, id: u64, data: Vec<u8>, other: u64)
    requires
        other != id,
    ensures
        ({
            let after = t.after(ControlMessage::Close { id });
            &&& t.connections.contains_key(id) ==> {
                &&& after.connections[id].close_requested
                &&& after.connections[id].pending == t.connections[id].pending
                &&& after.connections[id].handle == t.connections[id].handle
                &&& after.connections[id].link == t.connections[id].link
            }
            &&& after.connections.contains_key(other) == t.connections.contains_key(other)
            &&& t.connections.contains_key(other) ==> after.connections[other]
                == t.connections[other]
            &&& after.next_id == t.next_id
            &&& !t.connections.contains_key(id) ==> after == t && t.after(
                ControlMessage::Send { id, data },
            ) == t
        }),
{
}

/// What a socket has received is handed to the client from its front, up to 4096 octets at a
/// time, and driving goes on until nothing is left of it, unless the client is gone.
pub proof fn law_driving_delivers_what_came<L>(
    c: ConnectionView<L>,
    s: tcp::Socket<'_>,
    event: DriveEvent,
    d: ConnectionView<L>,
    t: tcp::Socket<'_>,
    step: DriveStep,
)
    requires
        driven(c, s, event, d, t, step),
        event != DriveEvent::Lost,
    ensures
        ({
            let n = rx_queue(s).len();
            &&& n == 0 ==> step is Settled
            &&& n > 0 ==> (step matches DriveStep::Deliver(chunk) && chunk@ == rx_queue(s).take(
                if n < 4096 {
                    n as int
                } else {
                    4096
                },
            ))
        }),
{
    if let DriveStep::Deliver(chunk) = step {
        assert(rx_queue(s).take(chunk@.len() as int) =~= chunk@);
    }
}

/// A connection is closed only if it is asked to be or its client is gone, and only once all
/// that came was handed over or the client is gone; it is over when its socket is.
pub proof fn law_driving_closes_on_request<L>(
    c: ConnectionView<L>,
    s: tcp::Socket<'_>,
    event: DriveEvent,
    d: ConnectionView<L>,
    t: tcp::Socket<'_>,
    step: DriveStep,
)
    requires
        driven(c, s, event, d, t, step),
    ensures
        !c.close_requested && event != DriveEvent::Lost ==> tcp_state(t) == tcp_state(s),
        step is Deliver ==> tcp_state(t) == tcp_state(s),
        step is Settled && (c.close_requested || event == DriveEvent::Lost) && tcp_state(
            s,
        ) is Established ==> tcp_state(t) is FinWait1,
        step matches DriveStep::Settled { over } ==> (over <==> tcp_state(t) is Closed || tcp_state(
            t,
        ) is TimeWait),
        tcp_ends(t) == tcp_ends(s),
        d.handle == c.handle && d.link == c.link,
{
}

/// What is waiting goes into the socket when the turn of its connection comes, until all of it
/// is there or the socket is full; without an open connection nothing moves.
pub proof fn law_driving_sends_what_waits<L>(
    c: ConnectionView<L>,
    s: tcp::Socket<'_>,
    d: ConnectionView<L>,
    t: tcp::Socket<'_>,
    step: DriveStep,
)
    requires
        driven(c, s, DriveEvent::Begin, d, t, step),
    ensures
        tcp_state(s) is Established || tcp_state(s) is CloseWait ==> d.pending.len() == 0
            || tx_queue(t).len() >= tx_capacity(t),
        !(tcp_state(s) is Established || tcp_state(s) is CloseWait) ==> d.pending == c.pending
            && tx_queue(t) == tx_queue(s),
        tx_queue(t) + flat(d.pending) == tx_queue(s) + flat(c.pending),
{
}

/// That the tunnel is closed is said once, with the reason if there is one; any other failure to
/// send is said each time, in its words.
pub proof fn law_a_closed_tunnel_is_mentioned_once(
    detail: Seq<char>,
    warned: bool,
    fatal: Option<Seq<char>>,
    reason: Seq<char>,
)
    ensures
        !says_closed(detail) ==> send_warning(detail, warned, fatal) == Some(
            "send tunnel packet failed: "@ + detail,
        ),
        says_closed(detail) ==> (send_warning(detail, warned, fatal) is None <==> warned),
        says_closed(detail) && !warned ==> send_warning(detail, warned, Some(reason)) == Some(
            "tunnel tx channel closed after protocol stop: "@ + reason,
        ),
        says_closed("sending on a closed channel"@),
{
    let s = "sending on a closed channel"@;
    assert(s.subrange(0, s.len() as int) =~= s);
    assert(text::is_first_text(s, s, 0));
}

/// The numbers of connections count up, and begin again at zero behind the highest.
pub proof fn law_connections_are_counted<L>(t: TableView<L>, handle: SocketHandle, link: L)
    ensures
        t.with_new(handle, link).next_id == (t.next_id + 1) % 0x1_0000_0000_0000_0000,
        t.with_new(handle, link).connections[t.next_id].pending.len() == 0,
        !t.with_new(handle, link).connections[t.next_id].close_requested,
{
}

} // verus!
