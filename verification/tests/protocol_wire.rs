use ec_core::protocol_wire::{
    build_command_message, build_initial_query_ip_message, build_query_ip_message,
    build_stream_handshake_message, build_tx_heartbeat_packet, internet_checksum,
    parse_command_control_reply, parse_native_control_frame, parse_protocol_token,
    parse_send_ip_reply, NativeControlType, PROTOCOL_TOKEN_LEN,
};

#[test]
fn parse_protocol_token_accepts_48_bytes() {
    let token = "a".repeat(PROTOCOL_TOKEN_LEN);
    let parsed = parse_protocol_token(&token).unwrap();
    assert_eq!(parsed.len(), PROTOCOL_TOKEN_LEN);
    assert_eq!(parsed[0], b'a');
}

#[test]
fn parse_protocol_token_rejects_other_lengths() {
    let token = "a".repeat(PROTOCOL_TOKEN_LEN - 1);
    assert!(parse_protocol_token(&token).is_err());
}

#[test]
fn parse_protocol_token_counts_bytes() {
    let token = "\u{e4}".repeat(24);
    let parsed = parse_protocol_token(&token).unwrap();
    assert_eq!(&parsed[..2], &[0xc3, 0xa4]);
    assert_eq!(
        parse_protocol_token("ab").unwrap_err().to_string(),
        "runtime failure: invalid protocol token length: expected 48, got 2"
    );
}

#[test]
fn query_ip_message_has_expected_layout() {
    let token = [0x11u8; PROTOCOL_TOKEN_LEN];
    let message = build_query_ip_message(&token);
    assert_eq!(message.len(), 64);
    assert_eq!(message[0], 0x00);
    assert!(message[4..(4 + PROTOCOL_TOKEN_LEN)].iter().all(|v| *v == 0x11));
    assert_eq!(&message[60..64], &[0x00, 0x00, 0x00, 0x00]);
}

#[test]
fn initial_query_ip_message_uses_official_ff_tail() {
    let token = [0x11u8; PROTOCOL_TOKEN_LEN];
    let message = build_initial_query_ip_message(&token);
    assert_eq!(message[0], 0x00);
    assert_eq!(&message[60..64], &[0xff, 0xff, 0xff, 0xff]);
}

#[test]
fn command_message_sets_little_endian_op_code() {
    let token = [0x22u8; PROTOCOL_TOKEN_LEN];
    let message = build_command_message(3, &token);
    assert_eq!(&message[0..4], &[0x03, 0x00, 0x00, 0x00]);
    assert!(message[4..(4 + PROTOCOL_TOKEN_LEN)].iter().all(|v| *v == 0x22));
    assert_eq!(&message[60..64], &[0x00, 0x00, 0x00, 0x00]);
    assert_eq!(&build_command_message(0x0403_0201, &token)[..4], &[1, 2, 3, 4]);
}

#[test]
fn send_ip_reply_parses_assigned_and_lan_ips() {
    let reply = [
        0x00, 0x00, 0x00, 0x00, 0x0a, 0xa6, 0x50, 0x36, 0x00, 0xa1, 0x45, 0x7d, 0x0a, 0xa6, 0x40,
        0x03, 0x00, 0x00, 0x00, 0x00,
    ];

    let parsed = parse_send_ip_reply(&reply).unwrap();
    assert_eq!(parsed.assigned_ip, [10, 166, 80, 54]);
    assert_eq!(parsed.lan_ip, [10, 166, 64, 3]);
}

#[test]
fn send_ip_reply_rejects_short_or_nonzero_code() {
    assert!(parse_send_ip_reply(&[0u8; 15]).is_err());

    let mut reply = [0u8; 16];
    reply[0..4].copy_from_slice(&15u32.to_le_bytes());
    assert!(parse_send_ip_reply(&reply).is_err());
    assert_eq!(
        parse_send_ip_reply(&reply).unwrap_err().to_string(),
        "runtime failure: unexpected send-ip reply code: 15"
    );
    assert_eq!(
        parse_send_ip_reply(&[0u8; 15]).unwrap_err().to_string(),
        "runtime failure: send-ip reply too short: 15 bytes"
    );
}

#[test]
fn command_control_reply_accepts_body_without_aabb() {
    let mut reply = [0u8; 36];
    reply[0..4].copy_from_slice(&15u32.to_le_bytes());
    assert_eq!(
        parse_command_control_reply(&reply).unwrap(),
        NativeControlType::Heartbeat
    );

    reply[0..4].copy_from_slice(&0u32.to_le_bytes());
    assert_eq!(
        parse_command_control_reply(&reply).unwrap(),
        NativeControlType::SendIp
    );
}

#[test]
fn command_control_reply_accepts_aabb_frame() {
    let mut frame = [0u8; 0x28];
    frame[0..4].copy_from_slice(b"AABB");
    frame[4..8].copy_from_slice(&8u32.to_le_bytes());
    assert_eq!(
        parse_command_control_reply(&frame).unwrap(),
        NativeControlType::Shutdown
    );
}

#[test]
fn command_control_reply_rejects_fragments() {
    assert_eq!(
        parse_command_control_reply(b"AABB\x01").unwrap_err().to_string(),
        "runtime failure: invalid command control frame: 5 bytes"
    );
    assert_eq!(
        parse_command_control_reply(b"AAB").unwrap_err().to_string(),
        "runtime failure: command control reply too short: 3 bytes"
    );
}

#[test]
fn stream_message_has_expected_layout() {
    let token = [0x22u8; PROTOCOL_TOKEN_LEN];
    let ip_rev = [4u8, 3, 2, 1];
    let message = build_stream_handshake_message(0x06, &token, &ip_rev);
    assert_eq!(message.len(), 64);
    assert_eq!(message[0], 0x06);
    assert!(message[4..(4 + PROTOCOL_TOKEN_LEN)].iter().all(|v| *v == 0x22));
    assert_eq!(&message[60..64], &ip_rev);
}

#[test]
fn native_control_frame_parses_aabb_little_endian_type() {
    let mut frame = [0u8; 0x28];
    frame[0..4].copy_from_slice(b"AABB");
    frame[4..8].copy_from_slice(&15u32.to_le_bytes());
    assert_eq!(
        parse_native_control_frame(&frame),
        Some(NativeControlType::Heartbeat)
    );

    frame[4..8].copy_from_slice(&1u32.to_le_bytes());
    assert_eq!(
        parse_native_control_frame(&frame),
        Some(NativeControlType::RxAck)
    );

    frame[4..8].copy_from_slice(&42u32.to_le_bytes());
    assert_eq!(
        parse_native_control_frame(&frame),
        Some(NativeControlType::Unknown(42))
    );
}

#[test]
fn native_control_frame_rejects_wrong_len_or_magic() {
    let mut frame = [0u8; 0x28];
    frame[0..4].copy_from_slice(b"AABB");
    frame[4..8].copy_from_slice(&15u32.to_le_bytes());
    assert_eq!(parse_native_control_frame(&frame[..0x27]), None);

    frame[0..4].copy_from_slice(b"TIMQ");
    assert_eq!(parse_native_control_frame(&frame), None);
}

#[test]
fn control_numbers_round_trip() {
    for code in 0..20 {
        assert_eq!(NativeControlType::from_code(code).code(), code);
    }
    assert_eq!(NativeControlType::from_code(9).label(), "ip-conflict");
    assert_eq!(NativeControlType::from_code(77).describe(), "unknown(77)");
}

#[test]
fn tx_heartbeat_packet_matches_captured_layout() {
    let heartbeat_dst = [10, 166, 64, 3];
    let packet = build_tx_heartbeat_packet(
        [10, 166, 80, 12],
        heartbeat_dst,
        b"eab27cdf7c24a40f",
        &[0x03, 0xa2, 0x16, 0x5a, 0xd5, 0x3d, 0x79, 0xb8],
    );
    let expected = [
        0x45, 0x00, 0x00, 0x4c, 0xbb, 0xaa, 0x00, 0x00, 0x40, 0x01, 0x19, 0xac, 0x0a, 0xa6, 0x50,
        0x0c, 0x0a, 0xa6, 0x40, 0x03, 0x08, 0x00, 0x04, 0xbd, 0x55, 0x55, 0x44, 0x33, 0x53, 0x41,
        0x4e, 0x47, 0x46, 0x4f, 0x52, 0x53, 0x43, 0x53, 0x49, 0x50, 0x43, 0x4c, 0x49, 0x45, 0x4e,
        0x54, 0x65, 0x61, 0x62, 0x32, 0x37, 0x63, 0x64, 0x66, 0x37, 0x63, 0x32, 0x34, 0x61, 0x34,
        0x30, 0x66, 0x03, 0xa2, 0x16, 0x5a, 0xd5, 0x3d, 0x79, 0xb8, 0x4c, 0x33, 0x56, 0x50, 0x4e,
        0x00,
    ];
    assert_eq!(packet, expected);
    assert_eq!(internet_checksum(&packet[..20]), 0);
    assert_eq!(internet_checksum(&packet[20..]), 0);
}

#[test]
fn checksums_of_odd_and_large_data() {
    assert_eq!(internet_checksum(&[]), 0xffff);
    assert_eq!(internet_checksum(&[0x12]), !0x1200);
    assert_eq!(internet_checksum(&[0xff, 0xff, 0x00, 0x01]), 0xfffe);
    assert_eq!(internet_checksum(&vec![0xff; 131072]), 0);
}
