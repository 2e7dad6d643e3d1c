use ec_core::protocol::{
    classify_command_heartbeat_reply, command_exit_detail, finish_command_stream, heartbeat_lines,
    install_runtime_channels, new_heartbeat_tail, open_command_stream, open_data_stream,
    open_data_stream_with_retries, read_stream_once, rx_worker_loop, send_command_heartbeat,
    send_tunnel_packet, should_forward_rx_payload, start_tunnel_runtime,
    take_tunnel_packet_receiver, tx_written, validate_stream_ack, worker_exit_detail, CommandHeartbeat,
    CommandHeartbeatFailure, CommandHeartbeatOutcome, HeartbeatStep, OpenStep, ReadAtLeast,
    RuntimeChannels, RxStep, StreamOpenKind, StreamOpenRetry, StreamProfile, TunnelFatalState,
    TunnelIps, TunnelRuntimeParams, TxSchedule, TxStep, TxWriteStep,
};
use ec_core::protocol_session::{
    apply_l3ip_session_id, l3ip_master_key, l3ip_session_id, SessionCall, SessionNext,
};
use ec_core::protocol_wire::NativeControlType;
use ec_core::stream::ReadOutcome;
use ec_core::EcError;

#[test]
fn stream_profiles_use_official_first_and_resume_ops() {
    assert_eq!(StreamProfile::Rx.op_code(StreamOpenKind::First), 0x06);
    assert_eq!(StreamProfile::Rx.op_code(StreamOpenKind::Resume), 0x07);
    assert_eq!(StreamProfile::Tx.op_code(StreamOpenKind::First), 0x05);
    assert_eq!(StreamProfile::Tx.op_code(StreamOpenKind::Resume), 0x08);
}

#[test]
fn stream_ack_accepts_matching_aabb_control_frame() {
    let mut frame = [0u8; 0x28];
    frame[0..4].copy_from_slice(b"AABB");
    frame[4..8].copy_from_slice(&1u32.to_le_bytes());
    assert!(validate_stream_ack(StreamProfile::Rx, 0x06, NativeControlType::RxAck, &frame).is_ok());

    frame[4..8].copy_from_slice(&2u32.to_le_bytes());
    assert!(validate_stream_ack(StreamProfile::Tx, 0x05, NativeControlType::TxAck, &frame).is_ok());
}

#[test]
fn stream_ack_rejects_wrong_type_and_accepts_legacy_marker() {
    let mut frame = [0u8; 0x28];
    frame[0..4].copy_from_slice(b"AABB");
    frame[4..8].copy_from_slice(&2u32.to_le_bytes());
    assert!(
        validate_stream_ack(StreamProfile::Rx, 0x06, NativeControlType::RxAck, &frame).is_err()
    );

    let legacy_marker_reply = [0x01u8, 0, 0, 0, 0, 0, 0, 0];
    assert!(validate_stream_ack(
        StreamProfile::Rx,
        0x06,
        NativeControlType::RxAck,
        &legacy_marker_reply
    )
    .is_ok());
}

#[test]
fn stream_ack_errors_say_what_came() {
    let mut frame = [0u8; 0x28];
    frame[0..4].copy_from_slice(b"AABB");
    frame[4..8].copy_from_slice(&2u32.to_le_bytes());
    assert_eq!(
        open_data_stream(StreamProfile::Rx, StreamOpenKind::First, Ok(()), Ok(frame.to_vec()))
            .unwrap_err()
            .to_string(),
        "runtime failure: unexpected rx stream handshake ack; expected: rx-ack(1); got: tx-ack(2); op: 0x06"
    );
    assert_eq!(
        open_data_stream(StreamProfile::Tx, StreamOpenKind::Resume, Ok(()), Ok(vec![9, 9]))
            .unwrap_err()
            .to_string(),
        "runtime failure: unexpected tx stream handshake ack; expected: tx-ack(2); got: non-control-frame len=2; op: 0x08"
    );
    assert_eq!(
        open_data_stream(StreamProfile::Tx, StreamOpenKind::Resume, Ok(()), Ok(vec![]))
            .unwrap_err()
            .to_string(),
        "runtime failure: tx stream handshake reply is empty or timed out; op: 0x08"
    );
    assert!(open_data_stream(StreamProfile::Tx, StreamOpenKind::First, Ok(()), Ok(vec![2])).is_ok());
    assert_eq!(
        open_data_stream(
            StreamProfile::Tx,
            StreamOpenKind::First,
            Err("broken pipe".to_string()),
            Ok(vec![])
        )
        .unwrap_err()
        .to_string(),
        "runtime failure: stream handshake write failed: broken pipe"
    );
    assert_eq!(
        open_data_stream(
            StreamProfile::Tx,
            StreamOpenKind::First,
            Ok(()),
            Err(EcError::Runtime("stream read failed: x".to_string()))
        )
        .unwrap_err()
        .to_string(),
        "runtime failure: stream read failed: x"
    );
}

#[test]
fn rx_payload_filter_consumes_rx_ack_only() {
    let mut frame = [0u8; 0x28];
    frame[0..4].copy_from_slice(b"AABB");
    frame[4..8].copy_from_slice(&1u32.to_le_bytes());
    assert!(!should_forward_rx_payload(&frame).unwrap());

    frame[4..8].copy_from_slice(&15u32.to_le_bytes());
    assert!(should_forward_rx_payload(&frame).is_err());

    let ipv4_packet = [0x45u8, 0, 0, 20, 0, 0, 0, 0];
    assert!(should_forward_rx_payload(&ipv4_packet).unwrap());
}

#[test]
fn the_rx_worker_forwards_reopens_and_exits() {
    assert!(matches!(rx_worker_loop(ReadOutcome::TimedOut), RxStep::Continue));
    assert!(matches!(rx_worker_loop(ReadOutcome::Data(vec![1, 2])), RxStep::Forward(p) if p == [1, 2]));
    assert!(matches!(
        rx_worker_loop(ReadOutcome::Eof),
        RxStep::Reopen(r) if r.first_attempt == 1 && r.delay_first_attempt && r.phase == "reconnect"
    ));
    assert!(matches!(rx_worker_loop(ReadOutcome::Failed("x".to_string())), RxStep::Reopen(_)));
    let mut frame = vec![0u8; 0x28];
    frame[0..4].copy_from_slice(b"AABB");
    frame[4] = 1;
    assert!(matches!(rx_worker_loop(ReadOutcome::Data(frame.clone())), RxStep::Continue));
    frame[4] = 8;
    match rx_worker_loop(ReadOutcome::Data(frame)) {
        RxStep::Exit(e) => assert_eq!(
            e.to_string(),
            "runtime failure: unexpected rx control frame: shutdown(8)"
        ),
        _ => panic!("expected an exit"),
    }
}

#[test]
fn tunnel_runtime_builds_tx_heartbeat_from_assigned_ip_and_session_suffix() {
    let mut token = [b'a'; 48];
    token[32..48].copy_from_slice(b"eab27cdf7c24a40f");
    let runtime = TunnelRuntimeParams::new(
        "vpn.example:443".to_string(),
        "vpn.example".to_string(),
        token,
        TunnelIps { assigned_ip: [10, 166, 80, 12], lan_ip: [10, 166, 64, 7] },
        1,
        2,
    );

    let packet = runtime.tx_heartbeat_packet();
    assert_eq!(&packet[12..16], &[10, 166, 80, 12]);
    assert_eq!(&packet[16..20], &[10, 166, 64, 7]);
    assert_eq!(&packet[46..62], b"eab27cdf7c24a40f");
    assert_eq!(&packet[70..76], b"L3VPN\0");
    assert_eq!(runtime.ip_rev, [12, 80, 166, 10]);
    assert_eq!(&packet[62..70], &runtime.heartbeat_tail);
}

#[test]
fn heartbeat_tails_depend_on_everything() {
    let token = [b'a'; 48];
    let ip = [10, 0, 0, 1];
    let base = new_heartbeat_tail(1, 2, &token, ip);
    assert_eq!(base, new_heartbeat_tail(1, 2, &token, ip));
    let mut other = token;
    other[47] = b'b';
    assert_ne!(base, new_heartbeat_tail(2, 2, &token, ip));
    assert_ne!(base, new_heartbeat_tail(1, 3, &token, ip));
    assert_ne!(base, new_heartbeat_tail(1, 2, &other, ip));
    assert_ne!(base, new_heartbeat_tail(1, 2, &token, [10, 0, 0, 2]));

    fn mix(mut x: u64) -> u64 {
        x = x.wrapping_add(0x9e3779b97f4a7c15);
        x = (x ^ (x >> 30)).wrapping_mul(0xbf58476d1ce4e5b9);
        x = (x ^ (x >> 27)).wrapping_mul(0x94d049bb133111eb);
        x ^ (x >> 31)
    }
    let mut seed = 1u64 ^ (2u64 << 32) ^ u64::from(u32::from_be_bytes(ip));
    for chunk in token.chunks(8) {
        let mut word = [0u8; 8];
        word.copy_from_slice(chunk);
        seed = mix(seed ^ u64::from_le_bytes(word).rotate_left(13));
    }
    assert_eq!(base, mix(seed).to_le_bytes());
}

#[test]
fn starting_the_tunnel_checks_server_and_token() {
    let ips = TunnelIps { assigned_ip: [1, 2, 3, 4], lan_ip: [5, 6, 7, 8] };
    let token = "t".repeat(48);
    let p = start_tunnel_runtime("vpn", &token, ips, 0, 0).unwrap();
    assert_eq!(p.authority, "vpn:443");
    assert_eq!(p.host, "vpn");
    assert_eq!(p.heartbeat_dst, [5, 6, 7, 8]);
    assert!(start_tunnel_runtime("", &token, ips, 0, 0).is_err());
    assert!(start_tunnel_runtime("vpn", "short", ips, 0, 0).is_err());
}

#[test]
fn command_heartbeat_reply_classifies_ack_and_shutdown() {
    let mut ack = [0u8; 36];
    ack[0..4].copy_from_slice(&15u32.to_le_bytes());
    assert!(matches!(classify_command_heartbeat_reply(&ack), CommandHeartbeatOutcome::Ack));

    ack[0..4].copy_from_slice(&8u32.to_le_bytes());
    assert!(matches!(
        classify_command_heartbeat_reply(&ack),
        CommandHeartbeatOutcome::Fatal(reason) if reason.contains("shutdown")
    ));
}

#[test]
fn command_heartbeat_reply_classifies_parse_failure_as_fatal() {
    assert!(matches!(
        classify_command_heartbeat_reply(&[]),
        CommandHeartbeatOutcome::Fatal(reason) if reason.contains("parse failed")
    ));
}

#[test]
fn command_heartbeats_fail_softly_or_fatally() {
    let ack = 15u32.to_le_bytes().to_vec();
    assert!(send_command_heartbeat(Ok(()), Ok(ack)).is_ok());
    let soft = |w: Result<(), String>, r: Result<Vec<u8>, EcError>| match send_command_heartbeat(w, r) {
        Err(CommandHeartbeatFailure::Retryable(m)) => m,
        _ => panic!("expected a retryable failure"),
    };
    assert_eq!(
        soft(Err("w".to_string()), Ok(vec![])),
        "command heartbeat write failed: w"
    );
    assert_eq!(
        soft(Ok(()), Err(EcError::Runtime("r".to_string()))),
        "command heartbeat read failed: r"
    );
    assert_eq!(soft(Ok(()), Ok(vec![])), "command heartbeat reply is empty or timed out");
    assert!(matches!(
        send_command_heartbeat(Ok(()), Ok(14u32.to_le_bytes().to_vec())),
        Err(CommandHeartbeatFailure::Fatal(m)) if m == "command control requested tunnel shutdown: ip-kick"
    ));
    assert!(matches!(
        send_command_heartbeat(Ok(()), Ok(2u32.to_le_bytes().to_vec())),
        Err(CommandHeartbeatFailure::Fatal(m)) if m == "unexpected command heartbeat reply: tx-ack(2)"
    ));
}

#[test]
fn three_failed_heartbeats_in_a_row_end_the_tunnel() {
    let mut h = CommandHeartbeat::new();
    let fail = || Err(CommandHeartbeatFailure::Retryable("x".to_string()));
    match h.command_heartbeat_loop(fail()) {
        HeartbeatStep::Sleep { millis, warning } => {
            assert_eq!(millis, 1_000);
            assert_eq!(
                warning.unwrap(),
                "command heartbeat failed: x; retrying in 1s (1/3)"
            );
        }
        HeartbeatStep::Exit(_) => panic!("expected a retry"),
    }
    assert!(matches!(h.command_heartbeat_loop(fail()), HeartbeatStep::Sleep { .. }));
    assert!(matches!(
        h.command_heartbeat_loop(Ok(())),
        HeartbeatStep::Sleep { millis: 30_000, warning: None }
    ));
    assert!(matches!(h.command_heartbeat_loop(fail()), HeartbeatStep::Sleep { .. }));
    assert!(matches!(h.command_heartbeat_loop(fail()), HeartbeatStep::Sleep { .. }));
    match h.command_heartbeat_loop(fail()) {
        HeartbeatStep::Exit(e) => {
            assert_eq!(
                e.to_string(),
                "runtime failure: command heartbeat reached failure limit (3/3): x"
            );
            assert_eq!(
                command_exit_detail(&e),
                "stream closed: command; reason: command heartbeat reached failure limit (3/3): x"
            );
        }
        HeartbeatStep::Sleep { .. } => panic!("expected the end"),
    }
    let mut fresh = CommandHeartbeat::new();
    assert!(matches!(
        fresh.command_heartbeat_loop(Err(CommandHeartbeatFailure::Fatal("gone".to_string()))),
        HeartbeatStep::Exit(e) if e.to_string() == "runtime failure: gone"
    ));
}

#[test]
fn opening_a_stream_is_tried_six_times() {
    let mut open = open_data_stream_with_retries(
        StreamProfile::Rx,
        StreamOpenKind::First,
        StreamOpenRetry::first_open(),
    );
    for i in 0..6 {
        match open.next() {
            OpenStep::Attempt { delay } => assert_eq!(delay, i > 0),
            OpenStep::Failed(_) => panic!("expected an attempt"),
        }
        open.failed(&EcError::Runtime(format!("e{i}")));
    }
    match open.next() {
        OpenStep::Failed(e) => assert_eq!(
            e.to_string(),
            "runtime failure: rx stream reached retry limit during open; last error: e5"
        ),
        OpenStep::Attempt { .. } => panic!("expected the end"),
    }
}

#[test]
fn reconnecting_always_pauses() {
    let open = open_data_stream_with_retries(
        StreamProfile::Tx,
        StreamOpenKind::Resume,
        StreamOpenRetry::reconnect(1),
    );
    assert!(matches!(open.next(), OpenStep::Attempt { delay: true }));
    let none = open_data_stream_with_retries(
        StreamProfile::Tx,
        StreamOpenKind::Resume,
        StreamOpenRetry::reconnect(6),
    );
    assert!(matches!(
        none.next(),
        OpenStep::Failed(e) if e.to_string() == "runtime failure: tx stream reached retry limit during reconnect"
    ));
}

#[test]
fn heartbeat_packets_are_sent_on_time() {
    let mut s = TxSchedule::new(100);
    assert_eq!(s.tx_worker_loop(100), TxStep::Wait(12_000));
    assert_eq!(s.tx_worker_loop(12_099), TxStep::Wait(1));
    assert_eq!(s.tx_worker_loop(12_100), TxStep::Heartbeat);
    assert_eq!(s.tx_worker_loop(12_101), TxStep::Wait(11_999));
    assert_eq!(
        heartbeat_lines(),
        (
            "data heartbeat: TX every 12s".to_string(),
            "command heartbeat: every 30s; retry 1s x3".to_string()
        )
    );
}

#[test]
fn a_failing_stream_is_opened_once_more() {
    assert!(matches!(tx_written(Ok(()), false), TxWriteStep::Continue));
    assert!(matches!(tx_written(Ok(()), true), TxWriteStep::Continue));
    assert!(matches!(
        tx_written(Err("x".to_string()), false),
        TxWriteStep::Reopen(r) if r.first_attempt == 1 && r.delay_first_attempt && r.phase == "reconnect"
    ));
    assert!(matches!(
        tx_written(Err("x".to_string()), true),
        TxWriteStep::Exit(e) if e.to_string() == "runtime failure: tx stream write failed after reconnect: x"
    ));
}

#[test]
fn the_command_stream_asks_for_addresses() {
    let q = open_command_stream("vpn.example.com", &"k".repeat(48)).unwrap();
    assert_eq!(q.authority, "vpn.example.com:443");
    assert_eq!(q.message[4], b'k');
    assert_eq!(&q.message[60..], &[0xff; 4]);
    assert!(open_command_stream("vpn.example.com", "k").is_err());
    let mut reply = vec![0u8; 36];
    reply[4..8].copy_from_slice(&[10, 166, 80, 54]);
    reply[12..16].copy_from_slice(&[10, 166, 64, 3]);
    let init = finish_command_stream(Ok(()), Ok(reply)).unwrap();
    assert_eq!(init.ips.assigned_ip, [10, 166, 80, 54]);
    assert_eq!(init.ips.lan_ip, [10, 166, 64, 3]);
    assert_eq!(
        finish_command_stream(Ok(()), Ok(vec![])).unwrap_err().to_string(),
        "runtime failure: SEND_IP reply is empty or timed out"
    );
    assert_eq!(
        finish_command_stream(Ok(()), Err(EcError::Runtime("x".to_string()))).unwrap_err().to_string(),
        "runtime failure: SEND_IP read failed: x"
    );
    assert!(finish_command_stream(Ok(()), Ok(vec![0; 15])).is_err());
    assert_eq!(
        finish_command_stream(Err("reset".to_string()), Ok(vec![])).unwrap_err().to_string(),
        "runtime failure: SEND_IP write failed: reset"
    );
}

#[test]
fn reads_go_on_until_enough_has_come() {
    let mut r = ReadAtLeast::read_at_least(3, 5);
    assert_eq!(r.next(false), Some(5));
    assert_eq!(r.next(true), None);
    assert!(r.take(ReadOutcome::Data(vec![1, 2])).unwrap());
    assert_eq!(r.next(false), Some(3));
    assert!(r.take(ReadOutcome::TimedOut).unwrap());
    assert!(!r.take(ReadOutcome::Eof).unwrap());
    assert!(r.take(ReadOutcome::Data(vec![3])).unwrap());
    assert_eq!(r.next(false), None);
    assert_eq!(r.data, vec![1, 2, 3]);
    assert_eq!(
        r.take(ReadOutcome::Failed("x".to_string())).unwrap_err().to_string(),
        "runtime failure: stream read failed: x"
    );
    assert!(read_stream_once(ReadOutcome::TimedOut).unwrap().is_none());
    assert_eq!(read_stream_once(ReadOutcome::Eof).unwrap(), Some(vec![]));
    assert_eq!(read_stream_once(ReadOutcome::Data(vec![7])).unwrap(), Some(vec![7]));
    assert!(read_stream_once(ReadOutcome::Failed("x".to_string())).is_err());
}

#[test]
fn channels_are_handed_over_once() {
    let mut c = RuntimeChannels::<u8, u16>::new();
    assert_eq!(
        send_tunnel_packet(&c).unwrap_err().to_string(),
        "runtime failure: tunnel runtime is not started"
    );
    assert_eq!(
        take_tunnel_packet_receiver(&mut c).unwrap_err().to_string(),
        "runtime failure: tunnel runtime is not started"
    );
    assert!(install_runtime_channels(&mut c, 1, 2).is_ok());
    assert_eq!(
        install_runtime_channels(&mut c, 3, 4).unwrap_err().to_string(),
        "runtime failure: tunnel runtime already started in this process"
    );
    assert_eq!(*send_tunnel_packet(&c).unwrap(), 1);
    assert_eq!(take_tunnel_packet_receiver(&mut c).unwrap(), 2);
    assert_eq!(
        take_tunnel_packet_receiver(&mut c).unwrap_err().to_string(),
        "runtime failure: tunnel packet receiver was already taken or not initialized"
    );
    assert!(install_runtime_channels(&mut c, 3, 4).is_err());
}

#[test]
fn the_first_fatal_reason_stays() {
    let mut f = TunnelFatalState::new();
    assert!(f.tunnel_fatal_reason().is_none());
    assert!(f.record_tunnel_fatal_reason("first".to_string()));
    assert!(!f.record_tunnel_fatal_reason("second".to_string()));
    assert_eq!(f.tunnel_fatal_reason().unwrap(), "first");
    assert!(!f.record_tunnel_fatal_reason("third".to_string()));
    assert_eq!(f.tunnel_fatal_reason().unwrap(), "first");
    f.clear_tunnel_fatal_reason();
    assert!(f.tunnel_fatal_reason().is_none());
    assert!(f.record_tunnel_fatal_reason("fourth".to_string()));
    assert_eq!(f.tunnel_fatal_reason().unwrap(), "fourth");
    assert_eq!(
        worker_exit_detail(StreamProfile::Rx, Ok(())),
        "stream closed: rx; reason: exited unexpectedly"
    );
    assert_eq!(
        worker_exit_detail(StreamProfile::Tx, Err(EcError::Runtime("x".to_string()))),
        "stream closed: tx; reason: x"
    );
}

#[test]
fn sessions_are_made_in_order_and_freed_once() {
    assert_eq!(&l3ip_session_id()[..5], b"L3IP\0");
    let key = l3ip_master_key();
    assert_eq!(key[0], 0x5a + 0x11);
    assert_eq!(key[47], (47u8 ^ 0x5a).wrapping_add(0x11));

    let mut call = SessionCall::Create;
    let mut frees = 0;
    loop {
        let step = apply_l3ip_session_id(call, true, "");
        if step.free {
            frees += 1;
        }
        match step.next {
            SessionNext::Call(next) => call = next,
            SessionNext::Done => break,
            SessionNext::Failed(_) => panic!("expected success"),
        }
    }
    assert_eq!(frees, 1);
    assert_eq!(call, SessionCall::Attach);

    let failed = apply_l3ip_session_id(SessionCall::SetId, false, "stack");
    assert!(failed.free);
    assert!(matches!(
        failed.next,
        SessionNext::Failed(e) if e.to_string() == "runtime failure: SSL_SESSION_set1_id failed: stack"
    ));
    let unmade = apply_l3ip_session_id(SessionCall::Create, false, "stack");
    assert!(!unmade.free);
}
