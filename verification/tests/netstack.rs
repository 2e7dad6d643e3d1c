use ec_core::addr::{Ipv4Addr, SocketAddr, SocketAddrV4};
use ec_core::netstack::{
    alloc_local_port, control_channel_disconnected_err, drive_connection, netstack_random_seed,
    pump_pending_sends, pump_uplink_reads, resolve_ipv4_target, tunnel_send_failed,
    validate_netstack_preconditions, Connection, ConnectionTable, ControlBatch, ControlEvent,
    ControlMessage, DriveEvent, DriveStep, Netstack,
};
use ec_core::EcError;
use smoltcp::iface::{Config, Interface, SocketHandle, SocketSet};
use smoltcp::phy::{Loopback, Medium};
use smoltcp::socket::tcp;
use smoltcp::time::Instant;
use smoltcp::wire::{HardwareAddress, IpAddress, IpCidr};

#[test]
fn alloc_local_port_wraps_after_60000() {
    let mut next = 60000;
    let p1 = alloc_local_port(&mut next);
    let p2 = alloc_local_port(&mut next);
    assert_eq!(p1, 60000);
    assert_eq!(p2, 40000);
}

#[test]
fn local_ports_come_in_turn() {
    let mut next = 40000;
    for i in 0..=20000u32 {
        assert_eq!(u32::from(alloc_local_port(&mut next)), 40000 + i);
    }
    assert_eq!(next, 40000);
}

#[test]
fn random_seed_is_non_zero() {
    let nanos = std::time::SystemTime::now()
        .duration_since(std::time::UNIX_EPOCH)
        .map(|d| d.as_nanos() as u64)
        .ok();
    assert_ne!(netstack_random_seed(nanos), 0);
    assert_ne!(netstack_random_seed(None), 0);
    assert_eq!(netstack_random_seed(Some(7)), 7);
}

#[test]
fn connections_are_numbered_and_asked() {
    let mut t = ConnectionTable::<&str>::new();
    assert_eq!(t.insert(SocketHandle::default(), "a"), 1);
    assert_eq!(t.insert(SocketHandle::default(), "b"), 2);
    assert_eq!(t.ids(), vec![1, 2]);
    assert_eq!(t.find(2).unwrap().link, "b");
    assert!(t.find(3).is_none());
    t.handle_control_message(ControlMessage::Send { id: 2, data: vec![1] });
    t.handle_control_message(ControlMessage::Send { id: 2, data: vec![2, 3] });
    t.handle_control_message(ControlMessage::Send { id: 9, data: vec![4] });
    t.handle_control_message(ControlMessage::Close { id: 1 });
    let b = t.remove(2).unwrap();
    assert_eq!(b.link, "b");
    assert_eq!(b.pending_send, vec![vec![1], vec![2, 3]]);
    assert!(!b.close_requested);
    assert!(t.remove(2).is_none());
    assert!(t.remove(1).unwrap().close_requested);
    assert!(t.ids().is_empty());
}

#[test]
fn new_connections_leave_others_alone() {
    let mut t = ConnectionTable::<&str>::new();
    t.insert(SocketHandle::default(), "a");
    t.handle_control_message(ControlMessage::Send { id: 1, data: vec![1] });
    t.insert(SocketHandle::default(), "b");
    let a = t.remove(1).unwrap();
    assert_eq!((a.link, a.pending_send.len()), ("a", 1));
}

#[test]
fn connection_numbers_wrap() {
    let mut t = ConnectionTable::<u8> { next_id: u64::MAX, entries: vec![] };
    assert_eq!(t.insert(SocketHandle::default(), 1), u64::MAX);
    assert_eq!(t.insert(SocketHandle::default(), 2), 0);
    t.next_id = 0;
    assert_eq!(t.insert(SocketHandle::default(), 3), 0);
    assert_eq!(t.remove(0).unwrap().link, 3);
    assert!(t.remove(0).is_none());
}

#[test]
fn batches_of_messages_end() {
    let mut batch = ControlBatch::new();
    for _ in 1..64 {
        assert!(batch.run_netstack_loop(ControlEvent::Message).unwrap());
    }
    assert!(!batch.run_netstack_loop(ControlEvent::Message).unwrap());
    let mut batch = ControlBatch::new();
    assert!(!batch.run_netstack_loop(ControlEvent::Nothing).unwrap());
    assert_eq!(
        batch.run_netstack_loop(ControlEvent::Disconnected).unwrap_err().to_string(),
        "runtime failure: netstack control channel disconnected"
    );
}

fn interface(device: &mut Loopback, addressed: bool) -> Interface {
    let mut iface =
        Interface::new(Config::new(HardwareAddress::Ip), device, Instant::from_millis(0));
    if addressed {
        iface.update_ip_addrs(|addrs| {
            let _ = addrs.push(IpCidr::new(IpAddress::v4(127, 0, 0, 1), 8));
        });
    }
    iface
}

fn target(port: u16) -> SocketAddrV4 {
    SocketAddrV4::new(Ipv4Addr::new(127, 0, 0, 1), port)
}

#[test]
fn the_stack_opens_connections() {
    let mut device = Loopback::new(Medium::Ip);
    let mut iface = interface(&mut device, true);
    let mut stack = Netstack::<&str>::new();
    assert_eq!(stack.open_connection(&mut iface, target(1234), "a").unwrap(), 1);
    assert_eq!(stack.next_local_port, 40001);
    let refused = stack.open_connection(&mut iface, target(0), "b").unwrap_err().to_string();
    assert_eq!(refused, "runtime failure: tcp connect failed: unaddressable destination");
    let nowhere = SocketAddrV4::new(Ipv4Addr::new(0, 0, 0, 0), 1);
    assert!(stack.open_connection(&mut iface, nowhere, "c").is_err());
    assert_eq!(stack.next_local_port, 40003);
    assert_eq!(stack.open_connection(&mut iface, target(1234), "d").unwrap(), 2);
    assert_eq!(stack.sockets.iter().count(), 2);
    let handle = stack.connections.entries[1].1.handle;
    let s = stack.sockets.get_mut::<tcp::Socket>(handle);
    assert_eq!(s.state(), tcp::State::SynSent);
    assert_eq!(s.remote_endpoint().unwrap().port, 1234);
    assert_eq!(s.local_endpoint().unwrap().port, 40003);
    assert_eq!((s.send_capacity(), s.recv_capacity()), (65536, 65536));
    stack.forget(2);
    stack.forget(7);
    assert_eq!(stack.sockets.iter().count(), 1);
    assert_eq!(stack.connections.ids(), vec![1]);
}

#[test]
fn the_stack_needs_an_address() {
    let mut device = Loopback::new(Medium::Ip);
    let mut iface = interface(&mut device, false);
    let mut stack = Netstack::<()>::new();
    assert!(stack.open_connection(&mut iface, target(1234), ()).is_err());
    assert_eq!(stack.sockets.iter().count(), 0);
}

#[test]
fn the_stack_drives_connections() {
    let mut device = Loopback::new(Medium::Ip);
    let mut iface = interface(&mut device, true);
    let mut stack = Netstack::<&str>::new();
    let mut listener = socket(64);
    listener.listen(1234).unwrap();
    let server = stack.sockets.add(listener);
    let id = stack.open_connection(&mut iface, target(1234), "a").unwrap();
    stack.handle_control_message(ControlMessage::Send { id, data: b"ping".to_vec() });
    assert!(matches!(
        stack.drive_connection(id, DriveEvent::Begin),
        DriveStep::Settled { over: false }
    ));
    let mut clock = 0;
    let mut poll = |stack: &mut Netstack<&str>| {
        for _ in 0..20 {
            clock += 10;
            let _ = iface.poll(Instant::from_millis(clock), &mut device, &mut stack.sockets);
        }
    };
    poll(&mut stack);
    stack.drive_connection(id, DriveEvent::Begin);
    poll(&mut stack);
    let mut buf = [0u8; 8];
    let s = stack.sockets.get_mut::<tcp::Socket>(server);
    assert_eq!(s.recv_slice(&mut buf).unwrap(), 4);
    assert_eq!(&buf[..4], b"ping");
    s.send_slice(b"pong").unwrap();
    poll(&mut stack);
    match stack.drive_connection(id, DriveEvent::Begin) {
        DriveStep::Deliver(chunk) => assert_eq!(chunk, b"pong"),
        DriveStep::Settled { .. } => panic!("nothing received"),
    }
    assert!(matches!(
        stack.drive_connection(id, DriveEvent::Taken),
        DriveStep::Settled { over: false }
    ));
    assert!(!stack.connections.entries[0].1.close_requested);
    assert!(matches!(
        stack.drive_connection(id, DriveEvent::Lost),
        DriveStep::Settled { over: false }
    ));
    assert!(stack.connections.entries[0].1.close_requested);
    poll(&mut stack);
    stack.sockets.get_mut::<tcp::Socket>(server).close();
    poll(&mut stack);
    assert!(matches!(
        stack.drive_connection(id, DriveEvent::Begin),
        DriveStep::Settled { over: true }
    ));
}

fn socket(size: usize) -> tcp::Socket<'static> {
    tcp::Socket::new(
        tcp::SocketBuffer::new(vec![0; size]),
        tcp::SocketBuffer::new(vec![0; size]),
    )
}

struct Pair {
    device: Loopback,
    iface: Interface,
    sockets: SocketSet<'static>,
    client: SocketHandle,
    server: SocketHandle,
    clock: i64,
}

impl Pair {
    fn poll(&mut self) {
        for _ in 0..20 {
            self.clock += 10;
            let _ = self.iface.poll(
                Instant::from_millis(self.clock),
                &mut self.device,
                &mut self.sockets,
            );
        }
    }
}

fn connected(client_buffer: usize) -> Pair {
    pair_of(client_buffer, 64)
}

fn pair_of(client_buffer: usize, server_buffer: usize) -> Pair {
    let mut device = Loopback::new(Medium::Ip);
    let mut iface = interface(&mut device, true);
    let mut sockets = SocketSet::new(vec![]);
    let mut listener = socket(server_buffer);
    listener.listen(1234).unwrap();
    let server = sockets.add(listener);
    let client = sockets.add(socket(client_buffer));
    sockets
        .get_mut::<tcp::Socket>(client)
        .connect(iface.context(), (IpAddress::v4(127, 0, 0, 1), 1234), 40000)
        .unwrap();
    let mut pair = Pair { device, iface, sockets, client, server, clock: 0 };
    pair.poll();
    pair
}

fn pending(chunks: &[&[u8]]) -> Connection<()> {
    let mut conn = Connection::new(SocketHandle::default(), ());
    for chunk in chunks {
        conn.pending_send.push_back(chunk.to_vec());
    }
    conn
}

#[test]
fn what_is_waiting_is_sent_in_its_order() {
    let mut pair = connected(8);
    let mut conn = pending(&[b"hello", b" wor", b"ld"]);
    pump_pending_sends(pair.sockets.get_mut::<tcp::Socket>(pair.client), &mut conn);
    assert_eq!(conn.pending_send, vec![b"r".to_vec(), b"ld".to_vec()]);
    assert!(!conn.close_requested);
    let mut got = vec![];
    for _ in 0..4 {
        pair.poll();
        while let Some(chunk) =
            pump_uplink_reads(pair.sockets.get_mut::<tcp::Socket>(pair.server))
        {
            got.extend_from_slice(&chunk);
        }
        pump_pending_sends(pair.sockets.get_mut::<tcp::Socket>(pair.client), &mut conn);
    }
    assert!(conn.pending_send.is_empty());
    assert_eq!(got, b"hello world");
}

#[test]
fn chunks_take_as_much_as_fits() {
    let mut pair = pair_of(8192, 8192);
    let data: Vec<u8> = (0..5000u32).map(|i| (i % 251) as u8).collect();
    assert_eq!(pair.sockets.get_mut::<tcp::Socket>(pair.server).send_slice(&data).unwrap(), 5000);
    pair.poll();
    let s = pair.sockets.get_mut::<tcp::Socket>(pair.client);
    assert_eq!(pump_uplink_reads(s).unwrap(), &data[..4096]);
    assert_eq!(pump_uplink_reads(s).unwrap(), &data[4096..]);
    assert!(pump_uplink_reads(s).is_none());
}

#[test]
fn nothing_is_sent_or_read_without_a_connection() {
    let mut s = socket(8);
    let mut conn = pending(&[b"x"]);
    pump_pending_sends(&mut s, &mut conn);
    assert_eq!(conn.pending_send.len(), 1);
    assert!(pump_uplink_reads(&mut s).is_none());
    assert!(drive_connection(&mut s, &conn));
}

#[test]
fn connections_close_when_asked() {
    let mut pair = connected(8);
    let mut conn = pending(&[]);
    let s = pair.sockets.get_mut::<tcp::Socket>(pair.client);
    assert!(!drive_connection(s, &conn));
    assert!(s.may_send());
    conn.close_requested = true;
    assert!(!drive_connection(s, &conn));
    assert!(!s.may_send());
    pair.poll();
    let other = pair.sockets.get_mut::<tcp::Socket>(pair.server);
    assert_eq!(other.state(), tcp::State::CloseWait);
    assert!(!drive_connection(other, &conn));
    assert_eq!(other.state(), tcp::State::LastAck);
    pair.poll();
    let s = pair.sockets.get_mut::<tcp::Socket>(pair.client);
    assert!(drive_connection(s, &conn));
}

#[test]
fn targets_resolve_to_ipv4() {
    let list = vec![SocketAddr::V4 { ip: Ipv4Addr::new(1, 2, 3, 4), port: 5 }];
    assert_eq!(resolve_ipv4_target("t", Ok(list)).unwrap().to_string(), "1.2.3.4:5");
    assert_eq!(
        resolve_ipv4_target("t", Ok(vec![])).unwrap_err().to_string(),
        "runtime failure: no ipv4 address resolved for t"
    );
    assert_eq!(
        resolve_ipv4_target("t", Err("x".to_string())).unwrap_err().to_string(),
        "runtime failure: resolve target failed: t: x"
    );
    assert!(validate_netstack_preconditions().is_ok());
    assert_eq!(
        control_channel_disconnected_err().to_string(),
        "runtime failure: netstack control channel disconnected"
    );
}

#[test]
fn a_closed_tunnel_is_mentioned_once() {
    let closed = EcError::Runtime("send tunnel packet failed: sending on a closed channel".to_string());
    let mut warned = false;
    assert_eq!(
        tunnel_send_failed(&closed, &mut warned, Some("why")).unwrap(),
        "tunnel tx channel closed after protocol stop: why"
    );
    assert!(warned);
    assert!(tunnel_send_failed(&closed, &mut warned, None).is_none());
    let other = EcError::Runtime("x".to_string());
    assert_eq!(
        tunnel_send_failed(&other, &mut warned, None).unwrap(),
        "send tunnel packet failed: x"
    );
    let mut fresh = false;
    assert_eq!(
        tunnel_send_failed(&closed, &mut fresh, None).unwrap(),
        "tunnel tx channel closed; dropping outbound packets"
    );
}
