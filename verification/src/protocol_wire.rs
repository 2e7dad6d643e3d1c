//! The bytes that the gateway speaks: control frames, command messages, stream handshakes
//! and heartbeat packets.

use vstd::prelude::*;
use crate::error;
use crate::error::{EcError, EcErrorView, EcResult};
use crate::text;

verus! {

pub const PROTOCOL_TOKEN_LEN: usize = 48;

pub const HEARTBEAT_SESSION_LEN: usize = 16;

pub const HEARTBEAT_OPAQUE_TAIL_LEN: usize = 8;

pub const TX_HEARTBEAT_PACKET_LEN: usize = 0x4c;

pub const NATIVE_CONTROL_FRAME_LEN: usize = 0x28;

pub const SEND_IP_REPLY_MIN_LEN: usize = 16;

pub const SEND_IP_REPLY_EXPECTED_LEN: usize = 36;

pub const COMMAND_REPLY_BODY_EXPECTED_LEN: usize = 36;

pub const COMMAND_REPLY_MIN_LEN: usize = 4;

// ---------------------------------------------------------------------------
// Numbers in bytes
// ---------------------------------------------------------------------------

/// The number of the four bytes that begin at `i`, the lowest first.
pub open spec fn le32_at(data: Seq<u8>, i: int) -> u32 {
    (data[i] + 0x100 * data[i + 1] + 0x1_0000 * data[i + 2] + 0x100_0000 * data[i + 3]) as u32
}

/// A number as four bytes, the lowest first.
pub open spec fn le32_bytes(v: u32) -> Seq<u8> {
    seq![
        (v % 256) as u8,
        (v / 0x100 % 256) as u8,
        (v / 0x1_0000 % 256) as u8,
        (v / 0x100_0000) as u8,
    ]
}

/// `n` zero bytes.
pub open spec fn zeros(n: nat) -> Seq<u8> {
    Seq::new(n, |i: int| 0u8)
}

fn read_le32(data: &[u8], i: usize) -> (r: u32)
    requires
        i + 4 <= data@.len(),
    ensures
        r == le32_at(data@, i as int),
{
    let _n: usize = data.len();
    (data[i] as u32) + 0x100 * (data[i + 1] as u32) + 0x1_0000 * (data[i + 2] as u32) + 0x100_0000
        * (data[i + 3] as u32)
}

// ---------------------------------------------------------------------------
// Control frames
// ---------------------------------------------------------------------------

/// What the gateway reports.
#[derive(Clone, Copy, Debug, Eq, PartialEq, Structural)]
pub enum NativeControlType {
    SendIp,
    RxAck,
    TxAck,
    ServerReset,
    Recovered,
    IpBusy,
    Shutdown,
    IpConflict,
    IpKick,
    Heartbeat,
    Unknown(u32),
}

/// What a number stands for.
pub open spec fn control_of(code: u32) -> NativeControlType {
    match code {
        0u32 => NativeControlType::SendIp,
        1u32 => NativeControlType::RxAck,
        2u32 => NativeControlType::TxAck,
        3u32 => NativeControlType::ServerReset,
        4u32 => NativeControlType::Recovered,
        5u32 => NativeControlType::IpBusy,
        8u32 => NativeControlType::Shutdown,
        9u32 => NativeControlType::IpConflict,
        14u32 => NativeControlType::IpKick,
        15u32 => NativeControlType::Heartbeat,
        v => NativeControlType::Unknown(v),
    }
}

impl NativeControlType {
    /// The number that stands for the report.
    pub open spec fn number(self) -> u32 {
        match self {
            NativeControlType::SendIp => 0,
            NativeControlType::RxAck => 1,
            NativeControlType::TxAck => 2,
            NativeControlType::ServerReset => 3,
            NativeControlType::Recovered => 4,
            NativeControlType::IpBusy => 5,
            NativeControlType::Shutdown => 8,
            NativeControlType::IpConflict => 9,
            NativeControlType::IpKick => 14,
            NativeControlType::Heartbeat => 15,
            NativeControlType::Unknown(v) => v,
        }
    }

    /// The name of the report.
    pub open spec fn name(self) -> Seq<char> {
        match self {
            NativeControlType::SendIp => "send-ip"@,
            NativeControlType::RxAck => "rx-ack"@,
            NativeControlType::TxAck => "tx-ack"@,
            NativeControlType::ServerReset => "server-reset"@,
            NativeControlType::Recovered => "recovered"@,
            NativeControlType::IpBusy => "ip-busy"@,
            NativeControlType::Shutdown => "shutdown"@,
            NativeControlType::IpConflict => "ip-conflict"@,
            NativeControlType::IpKick => "ip-kick"@,
            NativeControlType::Heartbeat => "heartbeat"@,
            NativeControlType::Unknown(_) => "unknown"@,
        }
    }

    /// The name of the report with its number in brackets.
    pub open spec fn text(self) -> Seq<char> {
        self.name() + "("@ + text::decimal(self.number() as int) + ")"@
    }

    /// What a number stands for.
    pub fn from_code(code: u32) -> (r: Self)
        ensures
            r == control_of(code),
    {
        match code {
            0u32 => NativeControlType::SendIp,
            1u32 => NativeControlType::RxAck,
            2u32 => NativeControlType::TxAck,
            3u32 => NativeControlType::ServerReset,
            4u32 => NativeControlType::Recovered,
            5u32 => NativeControlType::IpBusy,
            8u32 => NativeControlType::Shutdown,
            9u32 => NativeControlType::IpConflict,
            14u32 => NativeControlType::IpKick,
            15u32 => NativeControlType::Heartbeat,
            v => NativeControlType::Unknown(v),
        }
    }

    /// The number that stands for the report.
    pub fn code(self) -> (r: u32)
        ensures
            r == self.number(),
    {
        match self {
            NativeControlType::SendIp => 0,
            NativeControlType::RxAck => 1,
            NativeControlType::TxAck => 2,
            NativeControlType::ServerReset => 3,
            NativeControlType::Recovered => 4,
            NativeControlType::IpBusy => 5,
            NativeControlType::Shutdown => 8,
            NativeControlType::IpConflict => 9,
            NativeControlType::IpKick => 14,
            NativeControlType::Heartbeat => 15,
            NativeControlType::Unknown(v) => v,
        }
    }

    /// The name of the report.
    pub fn label(self) -> (r: &'static str)
        ensures
            r@ == self.name(),
    {
        match self {
            NativeControlType::SendIp => "send-ip",
            NativeControlType::RxAck => "rx-ack",
            NativeControlType::TxAck => "tx-ack",
            NativeControlType::ServerReset => "server-reset",
            NativeControlType::Recovered => "recovered",
            NativeControlType::IpBusy => "ip-busy",
            NativeControlType::Shutdown => "shutdown",
            NativeControlType::IpConflict => "ip-conflict",
            NativeControlType::IpKick => "ip-kick",
            NativeControlType::Heartbeat => "heartbeat",
            NativeControlType::Unknown(_) => "unknown",
        }
    }

    /// The name of the report with its number in brackets.
    pub fn describe(self) -> (r: String)
        ensures
            r@ == self.text(),
    {
        let number = text::decimal_u64(self.code() as u64);
        self.label().to_owned().concat("(").concat(number.as_str()).concat(")")
    }
}

/// The data begins with the mark of a control frame, the letters `AABB`.
pub open spec fn has_magic(data: Seq<u8>) -> bool {
    data.len() >= 4 && data[0] == 65 && data[1] == 65 && data[2] == 66 && data[3] == 66
}

/// What a control frame reports: the mark, then the number of the report.
pub open spec fn control_frame(data: Seq<u8>) -> Option<NativeControlType> {
    if data.len() == NATIVE_CONTROL_FRAME_LEN && has_magic(data) {
        Some(control_of(le32_at(data, 4)))
    } else {
        None
    }
}

fn starts_with_magic(data: &[u8]) -> (r: bool)
    ensures
        r == has_magic(data@),
{
    data.len() >= 4 && data[0] == 65 && data[1] == 65 && data[2] == 66 && data[3] == 66
}

/// What a control frame reports.
pub fn parse_native_control_frame(data: &[u8]) -> (r: Option<NativeControlType>)
    ensures
        r == control_frame(data@),
{
    if data.len() != NATIVE_CONTROL_FRAME_LEN || !starts_with_magic(data) {
        return None;
    }
    let code = read_le32(data, 4);
    Some(NativeControlType::from_code(code))
}

/// What a reply on the command stream reports: a control frame, or a body without the mark.
pub open spec fn command_reply(data: Seq<u8>) -> Result<NativeControlType, EcErrorView> {
    if has_magic(data) {
        match control_frame(data) {
            Some(c) => Ok(c),
            None => Err(
                EcErrorView::Runtime(
                    "invalid command control frame: "@ + text::decimal(data.len() as int)
                        + " bytes"@,
                ),
            ),
        }
    } else if data.len() < COMMAND_REPLY_MIN_LEN {
        Err(
            EcErrorView::Runtime(
                "command control reply too short: "@ + text::decimal(data.len() as int)
                    + " bytes"@,
            ),
        )
    } else {
        Ok(control_of(le32_at(data, 0)))
    }
}

/// A report as plain values.
pub open spec fn shown_control(r: EcResult<NativeControlType>) -> Result<
    NativeControlType,
    EcErrorView,
> {
    match r {
        Ok(c) => Ok(c),
        Err(e) => Err(e@),
    }
}

/// What a reply on the command stream reports.
pub fn parse_command_control_reply(data: &[u8]) -> (r: EcResult<NativeControlType>)
    ensures
        shown_control(r) == command_reply(data@),
{
    let count = text::decimal_u64(data.len() as u64);
    if starts_with_magic(data) {
        match parse_native_control_frame(data) {
            Some(c) => Ok(c),
            None => Err(
                EcError::Runtime(
                    "invalid command control frame: ".to_owned().concat(count.as_str()).concat(
                        " bytes",
                    ),
                ),
            ),
        }
    } else if data.len() < COMMAND_REPLY_MIN_LEN {
        Err(
            EcError::Runtime(
                "command control reply too short: ".to_owned().concat(count.as_str()).concat(
                    " bytes",
                ),
            ),
        )
    } else {
        let code = read_le32(data, 0);
        Ok(NativeControlType::from_code(code))
    }
}

// ---------------------------------------------------------------------------
// Messages
// ---------------------------------------------------------------------------

/// The token as bytes; its length is fixed.
pub open spec fn token_bytes(token: Seq<char>) -> Result<Seq<u8>, EcErrorView> {
    let bytes = vstd::utf8::encode_utf8(token);
    if bytes.len() == PROTOCOL_TOKEN_LEN {
        Ok(bytes)
    } else {
        Err(
            EcErrorView::Runtime(
                "invalid protocol token length: expected "@ + text::decimal(
                    PROTOCOL_TOKEN_LEN as int,
                ) + ", got "@ + text::decimal(bytes.len() as int),
            ),
        )
    }
}

/// A token as plain values.
pub open spec fn shown_token(r: EcResult<[u8; 48]>) -> Result<Seq<u8>, EcErrorView> {
    match r {
        Ok(t) => Ok(t@),
        Err(e) => Err(e@),
    }
}

/// The token as bytes; its length is fixed.
pub fn parse_protocol_token(token: &str) -> (r: EcResult<[u8; 48]>)
    ensures
        shown_token(r) == token_bytes(token@),
{
    let bytes = token.as_bytes();
    if bytes.len() != PROTOCOL_TOKEN_LEN {
        let wanted = text::decimal_u64(PROTOCOL_TOKEN_LEN as u64);
        let got = text::decimal_u64(bytes.len() as u64);
        return Err(
            EcError::Runtime(
                "invalid protocol token length: expected ".to_owned().concat(
                    wanted.as_str(),
                ).concat(", got ").concat(got.as_str()),
            ),
        );
    }
    let mut out: [u8; 48] = [0u8;48];
    for i in 0..48
        invariant
            bytes@.len() == 48,
            out@.len() == 48,
            forall|j: int| 0 <= j < i ==> out@[j] == bytes@[j],
    {
        let k: usize = i;
        out[k] = bytes[k];
    }
    assert(out@ =~= bytes@);
    Ok(out)
}

/// A command message: its number, the token, and zeros up to its full length.
pub open spec fn command_message(op_code: u32, token: Seq<u8>) -> Seq<u8> {
    le32_bytes(op_code) + token + zeros(12)
}

/// A command message.
pub fn build_command_message(op_code: u32, token: &[u8; 48]) -> (r: [u8; 64])
    ensures
        r@ == command_message(op_code, token@),
{
    let mut message: [u8; 64] = [0u8;64];
    message[0] = (op_code % 256) as u8;
    message[1] = (op_code / 0x100 % 256) as u8;
    message[2] = (op_code / 0x1_0000 % 256) as u8;
    message[3] = (op_code / 0x100_0000) as u8;
    let ghost want = command_message(op_code, token@);
    for i in 0..48
        invariant
            want == command_message(op_code, token@),
            message@.len() == 64,
            forall|j: int| 0 <= j < 4 + i ==> message@[j] == want[j],
            forall|j: int| 4 + i <= j < 64 ==> message@[j] == 0,
    {
        let k: usize = i;
        message[4 + k] = token[k];
    }
    assert(message@ =~= want);
    message
}

/// The message that asks for an address.
pub fn build_query_ip_message(token: &[u8; 48]) -> (r: [u8; 64])
    ensures
        r@ == command_message(0, token@),
{
    build_command_message(0, token)
}

/// The first message that asks for an address: its last four bytes are all ones.
pub open spec fn initial_query(token: Seq<u8>) -> Seq<u8> {
    le32_bytes(0) + token + zeros(8) + seq![0xffu8, 0xff, 0xff, 0xff]
}

/// The first message that asks for an address.
pub fn build_initial_query_ip_message(token: &[u8; 48]) -> (r: [u8; 64])
    ensures
        r@ == initial_query(token@),
{
    let mut message = build_query_ip_message(token);
    message[60] = 0xff;
    message[61] = 0xff;
    message[62] = 0xff;
    message[63] = 0xff;
    assert(message@ =~= initial_query(token@));
    message
}

/// A stream handshake: its number, the token, and the address backwards at the end.
pub open spec fn handshake_message(op_code: u8, token: Seq<u8>, ip_rev: Seq<u8>) -> Seq<u8> {
    seq![op_code, 0u8, 0, 0] + token + zeros(8) + ip_rev
}

/// A stream handshake.
pub fn build_stream_handshake_message(op_code: u8, token: &[u8; 48], ip_rev: &[u8; 4]) -> (r: [u8;
    64])
    ensures
        r@ == handshake_message(op_code, token@, ip_rev@),
{
    let mut message = build_command_message(op_code as u32, token);
    message[60] = ip_rev[0];
    message[61] = ip_rev[1];
    message[62] = ip_rev[2];
    message[63] = ip_rev[3];
    assert(message@ =~= handshake_message(op_code, token@, ip_rev@));
    message
}

/// The addresses that the gateway gives.
#[derive(Clone, Copy, Debug, Eq, PartialEq)]
pub struct SendIpReply {
    pub assigned_ip: [u8; 4],
    pub lan_ip: [u8; 4],
}

/// A reply as plain values.
pub ghost struct SendIpView {
    pub assigned_ip: Seq<u8>,
    pub lan_ip: Seq<u8>,
}

impl View for SendIpReply {
    type V = SendIpView;

    open spec fn view(&self) -> SendIpView {
        SendIpView { assigned_ip: self.assigned_ip@, lan_ip: self.lan_ip@ }
    }
}

/// The addresses that a reply gives.
pub open spec fn send_ip_of(data: Seq<u8>) -> Result<SendIpView, EcErrorView> {
    if data.len() < SEND_IP_REPLY_MIN_LEN {
        Err(
            EcErrorView::Runtime(
                "send-ip reply too short: "@ + text::decimal(data.len() as int) + " bytes"@,
            ),
        )
    } else if le32_at(data, 0) != 0 {
        Err(
            EcErrorView::Runtime(
                "unexpected send-ip reply code: "@ + text::decimal(le32_at(data, 0) as int),
            ),
        )
    } else {
        Ok(SendIpView { assigned_ip: data.subrange(4, 8), lan_ip: data.subrange(12, 16) })
    }
}

/// The addresses that a reply gives.
pub fn parse_send_ip_reply(data: &[u8]) -> (r: EcResult<SendIpReply>)
    ensures
        error::shown(r) == send_ip_of(data@),
{
    if data.len() < SEND_IP_REPLY_MIN_LEN {
        let count = text::decimal_u64(data.len() as u64);
        return Err(
            EcError::Runtime(
                "send-ip reply too short: ".to_owned().concat(count.as_str()).concat(" bytes"),
            ),
        );
    }
    let code = read_le32(data, 0);
    if code != 0 {
        let shown = text::decimal_u64(code as u64);
        return Err(
            EcError::Runtime("unexpected send-ip reply code: ".to_owned().concat(shown.as_str())),
        );
    }
    let assigned_ip = [data[4], data[5], data[6], data[7]];
    let lan_ip = [data[12], data[13], data[14], data[15]];
    assert(assigned_ip@ =~= data@.subrange(4, 8));
    assert(lan_ip@ =~= data@.subrange(12, 16));
    Ok(SendIpReply { assigned_ip, lan_ip })
}

// ---------------------------------------------------------------------------
// Checksums
// ---------------------------------------------------------------------------

/// The sum of the 16-bit words of the data, the high byte of each first; a byte left over is
/// the high byte of a last word.
pub open spec fn word_sum(data: Seq<u8>) -> int
    decreases data.len(),
{
    if data.len() == 0 {
        0
    } else if data.len() == 1 {
        data[0] * 256
    } else {
        data[0] * 256 + data[1] + word_sum(data.skip(2))
    }
}

/// The sum in ones' complement of 16 bits: the carries come back in at the bottom, and only
/// the sum of nothing but zeros is zero.
pub open spec fn folded(sum: int) -> int {
    if sum == 0 {
        0
    } else {
        (sum - 1) % 65535 + 1
    }
}

/// The internet checksum: the complement of the ones' complement sum.
pub open spec fn checksum(data: Seq<u8>) -> u16 {
    (65535 - folded(word_sum(data))) as u16
}

proof fn lemma_word_sum_bounds(data: Seq<u8>)
    ensures
        0 <= word_sum(data) <= (data.len() + 1) / 2 * 65535,
    decreases data.len(),
{
    if data.len() >= 2 {
        lemma_word_sum_bounds(data.skip(2));
        let n = data.len() as int;
        assert((n + 1) / 2 == (n - 1) / 2 + 1);
        assert((n + 1) / 2 * 65535 == (n - 1) / 2 * 65535 + 65535);
    }
}

proof fn lemma_fold_step(sum: int)
    requires
        sum >= 0x1_0000,
    ensures
        folded(sum % 0x1_0000 + sum / 0x1_0000) == folded(sum),
        0 < sum % 0x1_0000 + sum / 0x1_0000 < sum,
{
    let q = sum / 0x1_0000;
    let next = sum % 0x1_0000 + q;
    assert(sum == q * 0x1_0000 + sum % 0x1_0000);
    assert(sum - 1 == (next - 1) + 65535 * q);
    vstd::arithmetic::div_mod::lemma_mod_multiples_vanish(q, next - 1, 65535);
}

/// The internet checksum of some data.
pub fn internet_checksum(data: &[u8]) -> (r: u16)
    requires
        data@.len() <= 131072,
    ensures
        r == checksum(data@),
{
    let n: usize = data.len();
    let ghost total = word_sum(data@);
    proof {
        lemma_word_sum_bounds(data@);
        assert((n + 1) / 2 <= 65536);
        assert(total <= 65536 * 65535);
        assert(data@.skip(0) =~= data@);
    }
    let mut sum: u32 = 0;
    let mut i: usize = 0;
    while i < n
        invariant
            n == data@.len(),
            n <= 131072,
            i <= n + 1,
            i > n ==> n % 2 == 1 && i == n + 1,
            i % 2 == 0,
            total == word_sum(data@),
            0 <= total <= 65536 * 65535,
            i <= n ==> sum + word_sum(data@.skip(i as int)) == total,
            i > n ==> sum == total,
        decreases n + 1 - i,
    {
        let ghost rest = data@.skip(i as int);
        proof {
            lemma_word_sum_bounds(rest.skip(2));
            lemma_word_sum_bounds(rest);
        }
        let hi: u32 = data[i] as u32;
        let lo: u32 = if i + 1 < n {
            data[i + 1] as u32
        } else {
            0
        };
        assert(rest[0] == data@[i as int]);
        if i + 1 < n {
            assert(rest[1] == data@[i + 1]);
            assert(rest.skip(2) =~= data@.skip(i + 2));
        }
        sum = sum + (hi * 256 + lo);
        i = i + 2;
        if i == n {
            assert(data@.skip(i as int).len() == 0);
        }
    }
    assert(i == n ==> data@.skip(i as int).len() == 0);
    assert(sum == total);
    while sum / 0x1_0000 != 0
        invariant
            folded(sum as int) == folded(total),
        decreases sum,
    {
        proof {
            lemma_fold_step(sum as int);
        }
        sum = sum % 0x1_0000 + sum / 0x1_0000;
    }
    assert(folded(sum as int) == sum);
    0xffff - (sum as u16)
}

// ---------------------------------------------------------------------------
// Heartbeat packets
// ---------------------------------------------------------------------------

/// The IPv4 header of a heartbeat packet, with the given checksum in it.
pub open spec fn heartbeat_ip_header(source: Seq<u8>, destination: Seq<u8>, sum: u16) -> Seq<u8> {
    seq![
        0x45u8,
        0,
        0,
        0x4c,
        0xbb,
        0xaa,
        0,
        0,
        0x40,
        0x01,
        (sum / 256) as u8,
        (sum % 256) as u8,
    ] + source + destination
}

/// The letters `SANGFORSCSIPCLIENT`.
pub open spec fn payload_prefix() -> Seq<u8> {
    seq![83u8, 65, 78, 71, 70, 79, 82, 83, 67, 83, 73, 80, 67, 76, 73, 69, 78, 84]
}

/// The letters `L3VPN` and a zero.
pub open spec fn payload_suffix() -> Seq<u8> {
    seq![76u8, 51, 86, 80, 78, 0]
}

/// The ICMP echo request of a heartbeat packet, with the given checksum in it.
pub open spec fn heartbeat_echo(session: Seq<u8>, tail: Seq<u8>, sum: u16) -> Seq<u8> {
    seq![8u8, 0, (sum / 256) as u8, (sum % 256) as u8, 0x55, 0x55, 0x44, 0x33] + payload_prefix()
        + session + tail + payload_suffix()
}

/// A heartbeat packet: an ICMP echo request in an IPv4 packet, both with their checksums.
pub open spec fn heartbeat_packet(
    source: Seq<u8>,
    destination: Seq<u8>,
    session: Seq<u8>,
    tail: Seq<u8>,
) -> Seq<u8> {
    heartbeat_ip_header(
        source,
        destination,
        checksum(heartbeat_ip_header(source, destination, 0)),
    ) + heartbeat_echo(session, tail, checksum(heartbeat_echo(session, tail, 0)))
}

fn push_all(out: &mut Vec<u8>, part: &[u8])
    ensures
        final(out)@ == old(out)@ + part@,
{
    let mut copy = vstd::slice::slice_to_vec(part);
    out.append(&mut copy);
}

/// A heartbeat packet.
pub fn build_tx_heartbeat_packet(
    assigned_ip: [u8; 4],
    heartbeat_dst: [u8; 4],
    session: &[u8; 16],
    opaque_tail: &[u8; 8],
) -> (r: [u8; 76])
    ensures
        r@ == heartbeat_packet(assigned_ip@, heartbeat_dst@, session@, opaque_tail@),
{
    let mut header: Vec<u8> = Vec::new();
    let fixed = [0x45u8, 0, 0, 0x4c, 0xbb, 0xaa, 0, 0, 0x40, 0x01, 0, 0];
    push_all(&mut header, fixed.as_slice());
    push_all(&mut header, assigned_ip.as_slice());
    push_all(&mut header, heartbeat_dst.as_slice());
    assert(header@ =~= heartbeat_ip_header(assigned_ip@, heartbeat_dst@, 0));
    let ip_sum = internet_checksum(header.as_slice());
    header[10] = (ip_sum / 256) as u8;
    header[11] = (ip_sum % 256) as u8;
    assert(header@ =~= heartbeat_ip_header(assigned_ip@, heartbeat_dst@, ip_sum));

    let mut echo: Vec<u8> = Vec::new();
    let head = [8u8, 0, 0, 0, 0x55, 0x55, 0x44, 0x33];
    let prefix = [83u8, 65, 78, 71, 70, 79, 82, 83, 67, 83, 73, 80, 67, 76, 73, 69, 78, 84];
    let suffix = [76u8, 51, 86, 80, 78, 0];
    push_all(&mut echo, head.as_slice());
    push_all(&mut echo, prefix.as_slice());
    push_all(&mut echo, session.as_slice());
    push_all(&mut echo, opaque_tail.as_slice());
    push_all(&mut echo, suffix.as_slice());
    assert(echo@ =~= heartbeat_echo(session@, opaque_tail@, 0));
    let echo_sum = internet_checksum(echo.as_slice());
    echo[2] = (echo_sum / 256) as u8;
    echo[3] = (echo_sum % 256) as u8;
    assert(echo@ =~= heartbeat_echo(session@, opaque_tail@, echo_sum));

    let ghost whole = header@ + echo@;
    let mut packet: [u8; 76] = [0u8;76];
    for i in 0..20
        invariant
            header@.len() == 20,
            packet@.len() == 76,
            forall|j: int| 0 <= j < i ==> packet@[j] == header@[j],
    {
        let k: usize = i;
        packet[k] = header[k];
    }
    for i in 0..56
        invariant
            header@.len() == 20,
            echo@.len() == 56,
            packet@.len() == 76,
            forall|j: int| 0 <= j < 20 ==> packet@[j] == header@[j],
            forall|j: int| 20 <= j < 20 + i ==> packet@[j] == echo@[j - 20],
    {
        let k: usize = i;
        packet[20 + k] = echo[k];
    }
    assert(packet@ =~= whole);
    packet
}

// ---------------------------------------------------------------------------
// Laws
// ---------------------------------------------------------------------------

/// A number survives being read as a report and written again.
pub proof fn law_control_number_round_trip(code: u32)
    ensures
        control_of(code).number() == code,
{
}

/// Every report that has a number of its own survives being written and read again.
pub proof fn law_control_round_trip(c: NativeControlType)
    requires
        c matches NativeControlType::Unknown(v) ==> control_of(v) == c,
    ensures
        control_of(c.number()) == c,
{
}

/// The number of a command message is read back by the rules for replies.
pub proof fn law_command_number_round_trip(op_code: u32, token: Seq<u8>)
    requires
        token.len() == PROTOCOL_TOKEN_LEN,
    ensures
        command_message(op_code, token).len() == 64,
        le32_at(command_message(op_code, token), 0) == op_code,
{
    let m = command_message(op_code, token);
    let b = le32_bytes(op_code);
    assert(m[0] == b[0] && m[1] == b[1] && m[2] == b[2] && m[3] == b[3]);
}

proof fn lemma_word_sum_update(data: Seq<u8>, i: int, hi: u8, lo: u8)
    requires
        0 <= i,
        i + 1 < data.len(),
        i % 2 == 0,
        data[i] == 0,
        data[i + 1] == 0,
    ensures
        word_sum(data.update(i, hi).update(i + 1, lo)) == word_sum(data) + hi * 256 + lo,
    decreases i,
{
    let changed = data.update(i, hi).update(i + 1, lo);
    if i == 0 {
        assert(changed.skip(2) =~= data.skip(2));
    } else {
        assert(changed.skip(2) =~= data.skip(2).update(i - 2, hi).update(i - 1, lo));
        lemma_word_sum_update(data.skip(2), i - 2, hi, lo);
        assert(changed[0] == data[0] && changed[1] == data[1]);
    }
}

/// Data with its own checksum filled in, at an even place where there were zeros, has the
/// checksum zero: that is how a receiver tells that nothing was garbled.
pub proof fn law_checksum_verifies(data: Seq<u8>, i: int)
    requires
        0 <= i,
        i + 1 < data.len(),
        i % 2 == 0,
        data[i] == 0,
        data[i + 1] == 0,
    ensures
        ({
            let sum = checksum(data);
            checksum(data.update(i, (sum / 256) as u8).update(i + 1, (sum % 256) as u8)) == 0
        }),
{
    let s = word_sum(data);
    let sum = checksum(data);
    let f = folded(s);
    lemma_word_sum_bounds(data);
    lemma_word_sum_update(data, i, (sum / 256) as u8, (sum % 256) as u8);
    assert(0 <= f <= 65535);
    assert(sum == 65535 - f);
    let total = s + sum;
    if s == 0 {
        assert(folded(total) == 65535);
    } else {
        let q = (s - 1) / 65535;
        assert(s - 1 == 65535 * q + (s - 1) % 65535);
        assert(total - 1 == 65535 * q + 65534);
        vstd::arithmetic::div_mod::lemma_mod_multiples_vanish(q, 65534, 65535);
        assert(folded(total) == 65535);
    }
}

/// Both checksums of a heartbeat packet are right.
pub proof fn law_heartbeat_checksums_verify(
    source: Seq<u8>,
    destination: Seq<u8>,
    session: Seq<u8>,
    tail: Seq<u8>,
)
    requires
        source.len() == 4,
        destination.len() == 4,
        session.len() == HEARTBEAT_SESSION_LEN,
        tail.len() == HEARTBEAT_OPAQUE_TAIL_LEN,
    ensures
        ({
            let p = heartbeat_packet(source, destination, session, tail);
            &&& p.len() == TX_HEARTBEAT_PACKET_LEN
            &&& checksum(p.take(20)) == 0
            &&& checksum(p.skip(20)) == 0
        }),
{
    let p = heartbeat_packet(source, destination, session, tail);
    let header = heartbeat_ip_header(source, destination, 0);
    let echo = heartbeat_echo(session, tail, 0);
    let a = checksum(header);
    let b = checksum(echo);
    law_checksum_verifies(header, 10);
    law_checksum_verifies(echo, 2);
    assert(header.update(10, (a / 256) as u8).update(11, (a % 256) as u8)
        =~= heartbeat_ip_header(source, destination, a));
    assert(echo.update(2, (b / 256) as u8).update(3, (b % 256) as u8) =~= heartbeat_echo(
        session,
        tail,
        b,
    ));
    assert(p.take(20) =~= heartbeat_ip_header(source, destination, a));
    assert(p.skip(20) =~= heartbeat_echo(session, tail, b));
}

/// Every message to the gateway is 64 bytes long and carries the token, byte for byte, behind
/// its number, which stands in the first four bytes, the lowest first. A command message ends
/// in zeros, the first question for an address in four bytes of ones, and a stream handshake in
/// the four bytes of the address it is given.
#[verifier::rlimit(40)]
pub proof fn law_messages_carry_number_and_token(
    op_code: u32,
    stream_op: u8,
    token: Seq<u8>,
    ip_rev: Seq<u8>,
)
    requires
        token.len() == 48,
        ip_rev.len() == 4,
    ensures
        ({
            let command = command_message(op_code, token);
            let first = initial_query(token);
            let handshake = handshake_message(stream_op, token, ip_rev);
            &&& command.len() == 64 && first.len() == 64 && handshake.len() == 64
            &&& command.subrange(4, 52) == token
            &&& first.subrange(4, 52) == token
            &&& handshake.subrange(4, 52) == token
            &&& command[0] + 256 * command[1] + 65536 * command[2] + 16777216 * command[3]
                == op_code
            &&& first.subrange(0, 4) == seq![0u8, 0, 0, 0]
            &&& handshake.subrange(0, 4) == seq![stream_op, 0u8, 0, 0]
            &&& forall|i: int| 52 <= i < 64 ==> #[trigger] command[i] == 0
            &&& forall|i: int| 52 <= i < 60 ==> #[trigger] first[i] == 0
            &&& forall|i: int| 60 <= i < 64 ==> #[trigger] first[i] == 255
            &&& forall|i: int| 52 <= i < 60 ==> #[trigger] handshake[i] == 0
            &&& handshake.subrange(60, 64) == ip_rev
        }),
{
    let command = command_message(op_code, token);
    let first = initial_query(token);
    let handshake = handshake_message(stream_op, token, ip_rev);
    assert(command.subrange(4, 52) =~= token);
    assert(first.subrange(4, 52) =~= token);
    assert(handshake.subrange(4, 52) =~= token);
    assert(first.subrange(0, 4) =~= seq![0u8, 0, 0, 0]);
    assert(handshake.subrange(0, 4) =~= seq![stream_op, 0u8, 0, 0]);
    assert(handshake.subrange(60, 64) =~= ip_rev);
    let b = le32_bytes(op_code);
    assert(command[0] == b[0] && command[1] == b[1] && command[2] == b[2] && command[3] == b[3]);
}

/// The token of a message is the text it was given as, in UTF-8, and no text of another length
/// is a token.
pub proof fn law_tokens_are_their_text(token: Seq<char>)
    ensures
        match token_bytes(token) {
            Ok(bytes) => bytes.len() == 48 && vstd::utf8::decode_utf8(bytes) == token,
            Err(_) => vstd::utf8::encode_utf8(token).len() != 48,
        },
{
    broadcast use vstd::utf8::encode_utf8_decode_utf8;

}

/// A reply that begins with four zeros gives the address that stands in its second four bytes
/// and the one that stands in its fourth four bytes, whatever stands elsewhere; a reply that
/// does not, or that is shorter, gives none.
#[verifier::rlimit(40)]
pub proof fn law_addresses_of_a_reply(
    number: Seq<u8>,
    assigned: Seq<u8>,
    between: Seq<u8>,
    lan: Seq<u8>,
    rest: Seq<u8>,
    short: Seq<u8>,
)
    requires
        number.len() == 4,
        assigned.len() == 4,
        between.len() == 4,
        lan.len() == 4,
        short.len() < 16,
    ensures
        ({
            let reply = number + assigned + between + lan + rest;
            &&& number == seq![0u8, 0, 0, 0] ==> send_ip_of(reply) == Ok::<SendIpView, EcErrorView>(
                SendIpView { assigned_ip: assigned, lan_ip: lan },
            )
            &&& number != seq![0u8, 0, 0, 0] ==> send_ip_of(reply) is Err
            &&& send_ip_of(short) is Err
        }),
{
    let reply = number + assigned + between + lan + rest;
    assert(reply.subrange(4, 8) =~= assigned);
    assert(reply.subrange(12, 16) =~= lan);
    assert(reply[0] == number[0] && reply[1] == number[1] && reply[2] == number[2] && reply[3]
        == number[3]);
    if number[0] == 0 && number[1] == 0 && number[2] == 0 && number[3] == 0 {
        assert(number =~= seq![0u8, 0, 0, 0]);
    }
}

/// Forty bytes that begin with the letters `AABB` are a control frame, and its report is the
/// one whose number stands behind the letters, the lowest byte first; nothing else is one. On
/// the command stream the number may also stand alone, at the beginning of four bytes or more.
#[verifier::rlimit(40)]
pub proof fn law_reports_are_read_by_number(a: u8, b: u8, c: u8, d: u8, rest: Seq<u8>)
    ensures
        ({
            let code = a + 256 * b + 65536 * c + 16777216 * d;
            let framed = seq![65u8, 65, 66, 66, a, b, c, d] + rest;
            let bare = seq![a, b, c, d] + rest;
            &&& rest.len() == 32 ==> {
                &&& control_frame(framed) matches Some(r) && r.number() == code
                &&& command_reply(framed) matches Ok(r) && r.number() == code
            }
            &&& rest.len() != 32 ==> control_frame(framed) is None && command_reply(framed) is Err
            &&& !(a == 65 && b == 65 && c == 66 && d == 66) ==> {
                &&& control_frame(bare) is None
                &&& command_reply(bare) matches Ok(r) && r.number() == code
            }
        }),
{
    let framed = seq![65u8, 65, 66, 66, a, b, c, d] + rest;
    let bare = seq![a, b, c, d] + rest;
    assert(framed[4] == a && framed[5] == b && framed[6] == c && framed[7] == d);
    assert(bare[0] == a && bare[1] == b && bare[2] == c && bare[3] == d);
}

/// Less than four bytes report nothing.
pub proof fn law_short_replies_report_nothing(data: Seq<u8>)
    requires
        data.len() < 4,
    ensures
        control_frame(data) is None,
        command_reply(data) is Err,
{
}

/// The reports that the gateway makes, by their numbers; any other number is kept as it is.
pub proof fn law_numbers_of_reports(code: u32)
    ensures
        NativeControlType::SendIp.number() == 0,
        NativeControlType::RxAck.number() == 1,
        NativeControlType::TxAck.number() == 2,
        NativeControlType::ServerReset.number() == 3,
        NativeControlType::Recovered.number() == 4,
        NativeControlType::IpBusy.number() == 5,
        NativeControlType::Shutdown.number() == 8,
        NativeControlType::IpConflict.number() == 9,
        NativeControlType::IpKick.number() == 14,
        NativeControlType::Heartbeat.number() == 15,
        control_of(code) is Unknown <==> (code == 6 || code == 7 || 10 <= code <= 13 || code > 15),
{
}

/// The sum of words of some data is that of its parts, if the first of them has an even
/// length; two bytes are one word, and one byte is a word with a zero behind it.
pub proof fn law_word_sums_add_up(a: Seq<u8>, b: Seq<u8>, hi: u8, lo: u8)
    requires
        a.len() % 2 == 0,
    ensures
        word_sum(a + b) == word_sum(a) + word_sum(b),
        word_sum(seq![hi, lo]) == 256 * hi + lo,
        word_sum(seq![hi]) == 256 * hi,
    decreases a.len(),
{
    assert(seq![hi, lo].skip(2) =~= Seq::<u8>::empty());
    assert(word_sum(Seq::<u8>::empty()) == 0);
    if a.len() == 0 {
        assert(a + b =~= b);
    } else {
        assert((a + b).skip(2) =~= a.skip(2) + b);
        law_word_sums_add_up(a.skip(2), b, hi, lo);
    }
}

/// A checksum and the words of its data sum up to a multiple of all ones, and the checksum of
/// nothing but zeros is all ones.
pub proof fn law_checksum_completes_the_sum(data: Seq<u8>)
    ensures
        (word_sum(data) + checksum(data)) % 65535 == 0,
        word_sum(data) == 0 ==> checksum(data) == 65535,
        word_sum(data) > 0 ==> checksum(data) < 65535,
{
    lemma_word_sum_bounds(data);
    let s = word_sum(data);
    let f = folded(s);
    assert(0 <= f <= 65535);
    if s > 0 {
        let q = (s - 1) / 65535;
        assert(s - 1 == 65535 * q + (s - 1) % 65535);
        assert(s + checksum(data) == 65535 * (q + 1));
    }
}

/// A heartbeat packet goes from the one address to the other as a ping: an IPv4 header of
/// twenty bytes with protocol one, behind it an echo request. Behind the head of the request
/// stand the letters of the client, the session, the tail and the letters of the protocol.
#[verifier::rlimit(40)]
pub proof fn law_heartbeat_says_who_and_what(
    source: Seq<u8>,
    destination: Seq<u8>,
    session: Seq<u8>,
    tail: Seq<u8>,
)
    requires
        source.len() == 4,
        destination.len() == 4,
        session.len() == 16,
        tail.len() == 8,
    ensures
        ({
            let p = heartbeat_packet(source, destination, session, tail);
            &&& p.len() == 76
            &&& p[0] == 0x45 && p[9] == 1
            &&& 256 * p[2] + p[3] == p.len()
            &&& p.subrange(12, 16) == source
            &&& p.subrange(16, 20) == destination
            &&& p[20] == 8 && p[21] == 0
            &&& p.subrange(28, 46) == vstd::utf8::encode_utf8("SANGFORSCSIPCLIENT"@)
            &&& p.subrange(46, 62) == session
            &&& p.subrange(62, 70) == tail
            &&& p.subrange(70, 76) == vstd::utf8::encode_utf8("L3VPN"@).push(0)
        }),
{
    let p = heartbeat_packet(source, destination, session, tail);
    assert(p.subrange(12, 16) =~= source);
    assert(p.subrange(16, 20) =~= destination);
    assert(p.subrange(46, 62) =~= session);
    assert(p.subrange(62, 70) =~= tail);
    reveal_strlit("SANGFORSCSIPCLIENT");
    reveal_strlit("L3VPN");
    vstd::utf8::is_ascii_chars_encode_utf8("SANGFORSCSIPCLIENT"@);
    vstd::utf8::is_ascii_chars_encode_utf8("L3VPN"@);
    assert(p.subrange(28, 46) =~= vstd::utf8::encode_utf8("SANGFORSCSIPCLIENT"@));
    assert(p.subrange(70, 76) =~= vstd::utf8::encode_utf8("L3VPN"@).push(0));
}

pub(crate) proof fn lemma_handshake_bytes(op_code: u8, token: Seq<u8>, ip_rev: Seq<u8>)
    requires
        token.len() == 48,
        ip_rev.len() == 4,
    ensures
        ({
            let m = handshake_message(op_code, token, ip_rev);
            &&& m[0] == op_code
            &&& m.subrange(4, 52) == token
            &&& m[60] == ip_rev[0] && m[61] == ip_rev[1] && m[62] == ip_rev[2] && m[63]
                == ip_rev[3]
        }),
{
    let m = handshake_message(op_code, token, ip_rev);
    assert(m.subrange(4, 52) =~= token);
}

} // verus!
