//! The tunnel: how its streams are opened, kept alive and given up.

use vstd::prelude::*;
use crate::endpoint;
use crate::error;
use crate::error::{EcError, EcErrorView, EcResult};
use crate::protocol_wire;
use crate::protocol_wire::{NativeControlType, SendIpReply};
use crate::stream;
use crate::stream::ReadOutcome;
use crate::text;

verus! {

/// How often opening a stream is tried again.
pub const STREAM_RETRY_LIMIT: usize = 5;

/// How long to wait before a stream is tried again, in milliseconds.
pub const STREAM_RETRY_DELAY: u64 = 1_000;

/// How long the reply with the addresses may take, in milliseconds.
pub const QUERY_IP_REPLY_TIMEOUT: u64 = 10_000;

/// How long a stream handshake may take, in milliseconds.
pub const STREAM_HANDSHAKE_TIMEOUT: u64 = 10_000;

/// How often a heartbeat packet is sent, in milliseconds.
pub const TX_HEARTBEAT_INTERVAL: u64 = 12_000;

/// How often a command heartbeat is sent, in milliseconds.
pub const COMMAND_HEARTBEAT_INTERVAL: u64 = 30_000;

/// How long the reply to a command heartbeat may take, in milliseconds.
pub const COMMAND_HEARTBEAT_TIMEOUT: u64 = 10_000;

/// How long to wait after a failed command heartbeat, in milliseconds.
pub const COMMAND_HEARTBEAT_RETRY_DELAY: u64 = 1_000;

/// How many failed command heartbeats in a row end the tunnel.
pub const COMMAND_HEARTBEAT_FAILURE_LIMIT: u32 = 3;

// ---------------------------------------------------------------------------
// Streams
// ---------------------------------------------------------------------------

/// The two data streams.
#[derive(Clone, Copy, Debug, PartialEq, Eq, Structural)]
pub enum StreamProfile {
    Rx,
    Tx,
}

/// Whether a stream is opened for the first time.
#[derive(Clone, Copy, Debug, PartialEq, Eq, Structural)]
pub enum StreamOpenKind {
    First,
    Resume,
}

impl StreamProfile {
    /// The number with which the stream is asked for.
    pub open spec fn op(self, kind: StreamOpenKind) -> u8 {
        match (self, kind) {
            (StreamProfile::Rx, StreamOpenKind::First) => 0x06,
            (StreamProfile::Rx, StreamOpenKind::Resume) => 0x07,
            (StreamProfile::Tx, StreamOpenKind::First) => 0x05,
            (StreamProfile::Tx, StreamOpenKind::Resume) => 0x08,
        }
    }

    /// What the gateway reports once the stream is open.
    pub open spec fn ack(self) -> NativeControlType {
        match self {
            StreamProfile::Rx => NativeControlType::RxAck,
            StreamProfile::Tx => NativeControlType::TxAck,
        }
    }

    /// The name of the stream.
    pub open spec fn name(self) -> Seq<char> {
        match self {
            StreamProfile::Rx => "rx"@,
            StreamProfile::Tx => "tx"@,
        }
    }

    /// The number with which the stream is asked for.
    pub fn op_code(self, kind: StreamOpenKind) -> (r: u8)
        ensures
            r == self.op(kind),
    {
        match (self, kind) {
            (StreamProfile::Rx, StreamOpenKind::First) => 0x06,
            (StreamProfile::Rx, StreamOpenKind::Resume) => 0x07,
            (StreamProfile::Tx, StreamOpenKind::First) => 0x05,
            (StreamProfile::Tx, StreamOpenKind::Resume) => 0x08,
        }
    }

    /// What the gateway reports once the stream is open.
    pub fn expected_ack(self) -> (r: NativeControlType)
        ensures
            r == self.ack(),
    {
        match self {
            StreamProfile::Rx => NativeControlType::RxAck,
            StreamProfile::Tx => NativeControlType::TxAck,
        }
    }

    /// The name of the stream.
    pub fn label(self) -> (r: &'static str)
        ensures
            r@ == self.name(),
    {
        match self {
            StreamProfile::Rx => "rx",
            StreamProfile::Tx => "tx",
        }
    }
}

/// Where the attempts to open a stream begin, and what they are called.
#[derive(Clone, Copy, Debug)]
pub struct StreamOpenRetry {
    pub first_attempt: usize,
    pub delay_first_attempt: bool,
    pub phase: &'static str,
}

impl StreamOpenRetry {
    /// For a stream that is opened for the first time.
    pub fn first_open() -> (r: Self)
        ensures
            r.first_attempt == 0,
            !r.delay_first_attempt,
            r.phase@ == "open"@,
    {
        StreamOpenRetry { first_attempt: 0, delay_first_attempt: false, phase: "open" }
    }

    /// For a stream that was open before.
    pub fn reconnect(first_attempt: usize) -> (r: Self)
        ensures
            r.first_attempt == first_attempt,
            r.delay_first_attempt,
            r.phase@ == "reconnect"@,
    {
        StreamOpenRetry { first_attempt, delay_first_attempt: true, phase: "reconnect" }
    }
}

/// The attempts to open a stream.
#[derive(Debug)]
pub struct StreamOpen {
    profile: StreamProfile,
    kind: StreamOpenKind,
    retry: StreamOpenRetry,
    attempt: usize,
    last_error: Option<String>,
}

/// Attempts as plain values.
#[verifier::ext_equal]
pub ghost struct OpenView {
    pub profile: StreamProfile,
    pub kind: StreamOpenKind,
    pub retry: StreamOpenRetry,
    pub attempt: int,
    pub last_error: Option<Seq<char>>,
}

/// What to do next to open a stream.
#[derive(Debug)]
pub enum OpenStep {
    /// Try, after a pause if `delay` says so.
    Attempt { delay: bool },
    /// Give up.
    Failed(EcError),
}

impl View for StreamOpen {
    type V = OpenView;

    closed spec fn view(&self) -> OpenView {
        OpenView {
            profile: self.profile,
            kind: self.kind,
            retry: self.retry,
            attempt: self.attempt as int,
            last_error: text::shown(self.last_error),
        }
    }
}

impl OpenView {
    /// There is an attempt left.
    pub open spec fn trying(self) -> bool {
        self.attempt <= STREAM_RETRY_LIMIT
    }

    /// There is a pause before the next attempt.
    pub open spec fn pauses(self) -> bool {
        self.retry.delay_first_attempt || self.attempt > self.retry.first_attempt
    }

    /// The error once the attempts are used up.
    pub open spec fn gave_up(self) -> EcErrorView {
        let head = self.profile.name() + " stream reached retry limit during "@
            + self.retry.phase@;
        EcErrorView::Runtime(
            match self.last_error {
                Some(e) => head + "; last error: "@ + e,
                None => head,
            },
        )
    }

    /// The attempts after one of them has failed.
    pub open spec fn after_failure(self, e: EcErrorView) -> OpenView {
        OpenView {
            attempt: self.attempt + 1,
            last_error: Some(error::concise(e.text())),
            ..self
        }
    }

    /// The attempts after several of them have failed in turn.
    pub open spec fn after_failures(self, failures: Seq<EcErrorView>) -> OpenView
        decreases failures.len(),
    {
        if failures.len() == 0 {
            self
        } else {
            self.after_failure(failures[0]).after_failures(failures.skip(1))
        }
    }
}

/// Begins to open a stream.
pub fn open_data_stream_with_retries(
    profile: StreamProfile,
    kind: StreamOpenKind,
    retry: StreamOpenRetry,
) -> (r: StreamOpen)
    ensures
        r@ == (OpenView {
            profile,
            kind,
            retry,
            attempt: retry.first_attempt as int,
            last_error: None,
        }),
{
    StreamOpen { profile, kind, retry, attempt: retry.first_attempt, last_error: None }
}

impl StreamOpen {
    /// What to do next.
    pub fn next(&self) -> (r: OpenStep)
        ensures
            if self@.trying() {
                r matches OpenStep::Attempt { delay } && delay == self@.pauses()
            } else {
                r matches OpenStep::Failed(e) && e@ == self@.gave_up()
            },
    {
        if self.attempt <= STREAM_RETRY_LIMIT {
            OpenStep::Attempt {
                delay: self.retry.delay_first_attempt || self.attempt > self.retry.first_attempt,
            }
        } else {
            let head = self.profile.label().to_owned().concat(
                " stream reached retry limit during ",
            ).concat(self.retry.phase);
            let whole = match &self.last_error {
                Some(e) => head.concat("; last error: ").concat(e.as_str()),
                None => head,
            };
            OpenStep::Failed(EcError::Runtime(whole))
        }
    }

    /// Takes the failure of an attempt.
    pub fn failed(&mut self, err: &EcError)
        requires
            old(self)@.trying(),
        ensures
            final(self)@ == old(self)@.after_failure(err@),
    {
        self.last_error = Some(error::concise_error(err));
        self.attempt = self.attempt + 1;
    }
}

/// The handshake that asks for a stream.
pub fn stream_handshake(params: &TunnelRuntimeParams, profile: StreamProfile, kind: StreamOpenKind)
    -> (r: [u8; 64])
    ensures
        r@ == protocol_wire::handshake_message(
            profile.op(kind),
            params.token@,
            params.ip_rev@,
        ),
        r@ == params@.handshake(profile, kind),
{
    protocol_wire::build_stream_handshake_message(
        profile.op_code(kind),
        &params.token,
        &params.ip_rev,
    )
}

/// The first byte is the number of the expected report, as older gateways answer.
pub open spec fn legacy_ack(reply: Seq<u8>, expected: NativeControlType) -> bool {
    if reply.len() == 0 {
        expected.number() > 255
    } else {
        expected.number() <= 255 && reply[0] == expected.number()
    }
}

/// What an answer to a handshake says instead of the expected report.
pub open spec fn ack_complaint(
    profile: StreamProfile,
    op_code: u8,
    expected: NativeControlType,
    got: Seq<char>,
) -> EcErrorView {
    EcErrorView::Runtime(
        "unexpected "@ + profile.name() + " stream handshake ack; expected: "@ + expected.text()
            + "; got: "@ + got + "; op: 0x"@ + text::hex_byte(op_code),
    )
}

/// Why an answer to a handshake is not accepted, if it is not.
pub open spec fn ack_failure(
    profile: StreamProfile,
    op_code: u8,
    expected: NativeControlType,
    reply: Seq<u8>,
) -> Option<EcErrorView> {
    match protocol_wire::control_frame(reply) {
        Some(control) => if control == expected {
            None
        } else {
            Some(ack_complaint(profile, op_code, expected, control.text()))
        },
        None => if legacy_ack(reply, expected) {
            None
        } else {
            Some(
                ack_complaint(
                    profile,
                    op_code,
                    expected,
                    "non-control-frame len="@ + text::decimal(reply.len() as int),
                ),
            )
        },
    }
}

fn unexpected_stream_ack_err(
    profile: StreamProfile,
    op_code: u8,
    expected_ack: NativeControlType,
    got: &str,
) -> (r: EcError)
    ensures
        r@ == ack_complaint(profile, op_code, expected_ack, got@),
{
    let wanted = expected_ack.describe();
    let op = text::hex_u8(op_code);
    EcError::Runtime(
        "unexpected ".to_owned().concat(profile.label()).concat(
            " stream handshake ack; expected: ",
        ).concat(wanted.as_str()).concat("; got: ").concat(got).concat("; op: 0x").concat(
            op.as_str(),
        ),
    )
}

fn legacy_stream_ack_matches(reply: &[u8], expected_ack: NativeControlType) -> (r: bool)
    ensures
        r == legacy_ack(reply@, expected_ack),
{
    let code = expected_ack.code();
    if reply.len() == 0 {
        code > 255
    } else {
        code <= 255 && (reply[0] as u32) == code
    }
}

/// Takes the answer to a handshake.
pub fn validate_stream_ack(
    profile: StreamProfile,
    op_code: u8,
    expected_ack: NativeControlType,
    reply: &[u8],
) -> (r: EcResult<()>)
    ensures
        match ack_failure(profile, op_code, expected_ack, reply@) {
            None => r is Ok,
            Some(f) => r matches Err(e) && e@ == f,
        },
{
    match protocol_wire::parse_native_control_frame(reply) {
        Some(control) => if control == expected_ack {
            Ok(())
        } else {
            let got = control.describe();
            Err(unexpected_stream_ack_err(profile, op_code, expected_ack, got.as_str()))
        },
        None => if legacy_stream_ack_matches(reply, expected_ack) {
            Ok(())
        } else {
            let count = text::decimal_u64(reply.len() as u64);
            let got = "non-control-frame len=".to_owned().concat(count.as_str());
            Err(unexpected_stream_ack_err(profile, op_code, expected_ack, got.as_str()))
        },
    }
}

/// What came of a write, as plain values.
pub open spec fn write_result(written: Result<(), String>) -> Result<(), Seq<char>> {
    match written {
        Ok(_) => Ok(()),
        Err(m) => Err(m@),
    }
}

/// Why a stream could not be opened, if it could not, given what could be written and read;
/// an empty answer stands for none.
pub open spec fn open_failure(
    profile: StreamProfile,
    kind: StreamOpenKind,
    written: Result<(), Seq<char>>,
    read: Result<Seq<u8>, EcErrorView>,
) -> Option<EcErrorView> {
    match (written, read) {
        (Err(m), _) => Some(EcErrorView::Runtime("stream handshake write failed: "@ + m)),
        (Ok(_), Err(e)) => Some(e),
        (Ok(_), Ok(reply)) => if reply.len() == 0 {
            Some(
                EcErrorView::Runtime(
                    profile.name() + " stream handshake reply is empty or timed out; op: 0x"@
                        + text::hex_byte(profile.op(kind)),
                ),
            )
        } else {
            ack_failure(profile, profile.op(kind), profile.ack(), reply)
        },
    }
}

/// Takes what came of writing the handshake of a stream and of reading the answer; where
/// nothing could be written, nothing was read.
pub fn open_data_stream(
    profile: StreamProfile,
    kind: StreamOpenKind,
    written: Result<(), String>,
    read: EcResult<Vec<u8>>,
) -> (r: EcResult<()>)
    ensures
        match open_failure(profile, kind, write_result(written), error::shown(read)) {
            None => r is Ok,
            Some(f) => r matches Err(e) && e@ == f,
        },
{
    match written {
        Err(m) => {
            return Err(
                EcError::Runtime("stream handshake write failed: ".to_owned().concat(m.as_str())),
            );
        },
        Ok(_) => {},
    }
    let reply = match read {
        Err(e) => {
            return Err(e);
        },
        Ok(reply) => reply,
    };
    let op_code = profile.op_code(kind);
    if reply.len() == 0 {
        let op = text::hex_u8(op_code);
        return Err(
            EcError::Runtime(
                profile.label().to_owned().concat(
                    " stream handshake reply is empty or timed out; op: 0x",
                ).concat(op.as_str()),
            ),
        );
    }
    validate_stream_ack(profile, op_code, profile.expected_ack(), reply.as_slice())
}

// ---------------------------------------------------------------------------
// Parameters
// ---------------------------------------------------------------------------

/// The addresses of the tunnel.
#[derive(Clone, Copy, Debug, Eq, PartialEq)]
pub struct TunnelIps {
    pub assigned_ip: [u8; 4],
    pub lan_ip: [u8; 4],
}

/// What the gateway says when the command stream is opened.
#[derive(Clone, Copy, Debug, Eq, PartialEq)]
pub struct CommandStreamInit {
    pub ips: TunnelIps,
}

impl TunnelIps {
    /// The addresses of a reply.
    pub fn from_reply(reply: SendIpReply) -> (r: Self)
        ensures
            r.assigned_ip == reply.assigned_ip,
            r.lan_ip == reply.lan_ip,
    {
        TunnelIps { assigned_ip: reply.assigned_ip, lan_ip: reply.lan_ip }
    }
}

/// What the streams of a tunnel are opened with.
#[derive(Clone, Debug)]
pub struct TunnelRuntimeParams {
    pub authority: String,
    pub host: String,
    pub token: [u8; 48],
    pub assigned_ip: [u8; 4],
    pub ip_rev: [u8; 4],
    pub heartbeat_dst: [u8; 4],
    pub heartbeat_tail: [u8; 8],
}

/// The mixing function of the splitmix generator.
pub open spec fn splitmix(x: u64) -> u64 {
    let a = x.wrapping_add(0x9e3779b97f4a7c15);
    let b = (a ^ (a >> 30)).wrapping_mul(0xbf58476d1ce4e5b9);
    let c = (b ^ (b >> 27)).wrapping_mul(0x94d049bb133111eb);
    c ^ (c >> 31)
}

/// The number of the eight bytes that begin at `i`, the lowest first.
pub open spec fn le64_at(data: Seq<u8>, i: int) -> u64 {
    (data[i] + 0x100 * (data[i + 1] + 0x100 * (data[i + 2] + 0x100 * (data[i + 3] + 0x100 * (data[i
        + 4] + 0x100 * (data[i + 5] + 0x100 * (data[i + 6] + 0x100 * data[i + 7]))))))) as u64
}

/// A number as eight bytes, the lowest first.
pub open spec fn le64_bytes(v: u64) -> Seq<u8> {
    seq![
        (v % 256) as u8,
        (v / 0x100 % 256) as u8,
        (v / 0x1_0000 % 256) as u8,
        (v / 0x100_0000 % 256) as u8,
        (v / 0x1_0000_0000 % 256) as u8,
        (v / 0x100_0000_0000 % 256) as u8,
        (v / 0x1_0000_0000_0000 % 256) as u8,
        (v / 0x100_0000_0000_0000) as u8,
    ]
}

/// The seed after the first `n` words of the token have been stirred in, each rotated by
/// thirteen bits.
pub open spec fn stirred(seed: u64, token: Seq<u8>, n: int) -> u64
    decreases n,
{
    if n <= 0 {
        seed
    } else {
        let word = le64_at(token, 8 * (n - 1));
        splitmix(stirred(seed, token, n - 1) ^ ((word << 13) | (word >> 51)))
    }
}

/// Where the tail of a heartbeat starts from: the time, the process and the address.
pub open spec fn tail_seed(now: u64, process_id: u32, ip: Seq<u8>) -> u64 {
    now ^ ((process_id as u64) << 32) ^ ((0x100_0000 * ip[0] + 0x1_0000 * ip[1] + 0x100 * ip[2]
        + ip[3]) as u64)
}

/// The tail of the heartbeats of a tunnel.
pub open spec fn tail_of(now: u64, process_id: u32, token: Seq<u8>, ip: Seq<u8>) -> Seq<u8> {
    le64_bytes(splitmix(stirred(tail_seed(now, process_id, ip), token, 6)))
}

fn splitmix64(x: u64) -> (r: u64)
    ensures
        r == splitmix(x),
{
    let a: u64 = x.wrapping_add(0x9e3779b97f4a7c15);
    let b: u64 = (a ^ (a >> 30)).wrapping_mul(0xbf58476d1ce4e5b9);
    let c: u64 = (b ^ (b >> 27)).wrapping_mul(0x94d049bb133111eb);
    c ^ (c >> 31)
}

fn read_le64(data: &[u8; 48], i: usize) -> (r: u64)
    requires
        i + 8 <= 48,
    ensures
        r == le64_at(data@, i as int),
{
    let h: u64 = data[i + 7] as u64;
    let g: u64 = (data[i + 6] as u64) + 0x100 * h;
    let f: u64 = (data[i + 5] as u64) + 0x100 * g;
    let e: u64 = (data[i + 4] as u64) + 0x100 * f;
    let d: u64 = (data[i + 3] as u64) + 0x100 * e;
    let c: u64 = (data[i + 2] as u64) + 0x100 * d;
    let b: u64 = (data[i + 1] as u64) + 0x100 * c;
    (data[i] as u64) + 0x100 * b
}

/// The tail of the heartbeats of a tunnel, from the time in nanoseconds, the process, the
/// token and the address.
pub fn new_heartbeat_tail(now: u64, process_id: u32, token: &[u8; 48], assigned_ip: [u8; 4]) -> (r:
    [u8; 8])
    ensures
        r@ == tail_of(now, process_id, token@, assigned_ip@),
{
    let ip: u64 = 0x100_0000 * (assigned_ip[0] as u64) + 0x1_0000 * (assigned_ip[1] as u64) + 0x100
        * (assigned_ip[2] as u64) + (assigned_ip[3] as u64);
    let start: u64 = now ^ ((process_id as u64) << 32) ^ ip;
    let mut seed: u64 = start;
    for i in 0..6
        invariant
            seed == stirred(start, token@, i as int),
    {
        let k: usize = i;
        let word = read_le64(token, 8 * k);
        seed = splitmix64(seed ^ ((word << 13) | (word >> 51)));
    }
    let v = splitmix64(seed);
    let r = [
        (v % 256) as u8,
        (v / 0x100 % 256) as u8,
        (v / 0x1_0000 % 256) as u8,
        (v / 0x100_0000 % 256) as u8,
        (v / 0x1_0000_0000 % 256) as u8,
        (v / 0x100_0000_0000 % 256) as u8,
        (v / 0x1_0000_0000_0000 % 256) as u8,
        (v / 0x100_0000_0000_0000) as u8,
    ];
    assert(r@ =~= le64_bytes(v));
    r
}

impl TunnelRuntimeParams {
    /// The parameters of a tunnel.
    pub fn new(
        authority: String,
        host: String,
        token: [u8; 48],
        ips: TunnelIps,
        now: u64,
        process_id: u32,
    ) -> (r: Self)
        ensures
            r.authority == authority,
            r.host == host,
            r.token == token,
            r.assigned_ip == ips.assigned_ip,
            r.ip_rev@ == ips.assigned_ip@.reverse(),
            r.heartbeat_dst == ips.lan_ip,
            r.heartbeat_tail@ == tail_of(now, process_id, token@, ips.assigned_ip@),
            r@ == params_of(
                authority@,
                host@,
                token@,
                ips.assigned_ip@,
                ips.lan_ip@,
                now,
                process_id,
            ),
    {
        let heartbeat_tail = new_heartbeat_tail(now, process_id, &token, ips.assigned_ip);
        let ip_rev = [
            ips.assigned_ip[3],
            ips.assigned_ip[2],
            ips.assigned_ip[1],
            ips.assigned_ip[0],
        ];
        assert(ip_rev@ =~= ips.assigned_ip@.reverse());
        TunnelRuntimeParams {
            authority,
            host,
            token,
            assigned_ip: ips.assigned_ip,
            ip_rev,
            heartbeat_dst: ips.lan_ip,
            heartbeat_tail,
        }
    }

    /// The part of the token that names the session.
    pub fn heartbeat_session(&self) -> (r: [u8; 16])
        ensures
            r@ == self.token@.subrange(32, 48),
    {
        let mut session: [u8; 16] = [0u8;16];
        for i in 0..16
            invariant
                session@.len() == 16,
                forall|j: int| 0 <= j < i ==> session@[j] == self.token@[32 + j],
        {
            let k: usize = i;
            session[k] = self.token[32 + k];
        }
        assert(session@ =~= self.token@.subrange(32, 48));
        session
    }

    /// The packet that keeps the stream alive.
    pub fn tx_heartbeat_packet(&self) -> (r: [u8; 76])
        ensures
            r@ == protocol_wire::heartbeat_packet(
                self.assigned_ip@,
                self.heartbeat_dst@,
                self.token@.subrange(32, 48),
                self.heartbeat_tail@,
            ),
            r@ == self@.heartbeat(),
    {
        let session = self.heartbeat_session();
        protocol_wire::build_tx_heartbeat_packet(
            self.assigned_ip,
            self.heartbeat_dst,
            &session,
            &self.heartbeat_tail,
        )
    }
}

/// What the streams of a tunnel are opened with, as plain values.
#[verifier::ext_equal]
pub ghost struct ParamsView {
    pub authority: Seq<char>,
    pub host: Seq<char>,
    pub token: Seq<u8>,
    pub assigned_ip: Seq<u8>,
    pub ip_rev: Seq<u8>,
    pub heartbeat_dst: Seq<u8>,
    pub heartbeat_tail: Seq<u8>,
}

impl View for TunnelRuntimeParams {
    type V = ParamsView;

    open spec fn view(&self) -> ParamsView {
        ParamsView {
            authority: self.authority@,
            host: self.host@,
            token: self.token@,
            assigned_ip: self.assigned_ip@,
            ip_rev: self.ip_rev@,
            heartbeat_dst: self.heartbeat_dst@,
            heartbeat_tail: self.heartbeat_tail@,
        }
    }
}

/// The parameters of a tunnel with the given addresses: its own and that of the gateway.
pub open spec fn params_of(
    authority: Seq<char>,
    host: Seq<char>,
    token: Seq<u8>,
    assigned_ip: Seq<u8>,
    lan_ip: Seq<u8>,
    now: u64,
    process_id: u32,
) -> ParamsView {
    ParamsView {
        authority,
        host,
        token,
        assigned_ip,
        ip_rev: assigned_ip.reverse(),
        heartbeat_dst: lan_ip,
        heartbeat_tail: tail_of(now, process_id, token, assigned_ip),
    }
}

impl ParamsView {
    /// The handshake that asks for a stream.
    pub open spec fn handshake(self, profile: StreamProfile, kind: StreamOpenKind) -> Seq<u8> {
        protocol_wire::handshake_message(profile.op(kind), self.token, self.ip_rev)
    }

    /// The packet that keeps the stream alive.
    pub open spec fn heartbeat(self) -> Seq<u8> {
        protocol_wire::heartbeat_packet(
            self.assigned_ip,
            self.heartbeat_dst,
            self.token.subrange(32, 48),
            self.heartbeat_tail,
        )
    }
}

/// The parameters of the tunnel to a server.
pub fn start_tunnel_runtime(
    server: &str,
    token: &str,
    ips: TunnelIps,
    now: u64,
    process_id: u32,
) -> (r: EcResult<TunnelRuntimeParams>)
    ensures
        match (endpoint::endpoint_of(server@), protocol_wire::token_bytes(token@)) {
            (Err(e), _) => r matches Err(f) && f@ == e,
            (Ok(_), Err(e)) => r matches Err(f) && f@ == e,
            (Ok((authority, host)), Ok(bytes)) => {
                &&& r matches Ok(p)
                &&& p.authority@ == authority
                &&& p.host@ == host
                &&& p.token@ == bytes
                &&& p.assigned_ip == ips.assigned_ip
                &&& p.ip_rev@ == ips.assigned_ip@.reverse()
                &&& p.heartbeat_dst == ips.lan_ip
                &&& p.heartbeat_tail@ == tail_of(now, process_id, bytes, ips.assigned_ip@)
                &&& p@ == params_of(
                    authority,
                    host,
                    bytes,
                    ips.assigned_ip@,
                    ips.lan_ip@,
                    now,
                    process_id,
                )
            },
        },
{
    match endpoint::parse_server(server) {
        Err(e) => Err(e),
        Ok((authority, host)) => match protocol_wire::parse_protocol_token(token) {
            Err(e) => Err(e),
            Ok(bytes) => Ok(
                TunnelRuntimeParams::new(authority, host, bytes, ips, now, process_id),
            ),
        },
    }
}

/// What is said of the heartbeats when a tunnel starts.
pub open spec fn heartbeat_notes() -> (Seq<char>, Seq<char>) {
    (
        "data heartbeat: TX every "@ + text::decimal(TX_HEARTBEAT_INTERVAL as int / 1000) + "s"@,
        "command heartbeat: every "@ + text::decimal(COMMAND_HEARTBEAT_INTERVAL as int / 1000)
            + "s; retry "@ + text::decimal(COMMAND_HEARTBEAT_RETRY_DELAY as int / 1000) + "s x"@
            + text::decimal(COMMAND_HEARTBEAT_FAILURE_LIMIT as int),
    )
}

/// What is said of the heartbeats when a tunnel starts.
pub fn heartbeat_lines() -> (r: (String, String))
    ensures
        (r.0@, r.1@) == heartbeat_notes(),
{
    let tx = text::decimal_u64(TX_HEARTBEAT_INTERVAL / 1000);
    let every = text::decimal_u64(COMMAND_HEARTBEAT_INTERVAL / 1000);
    let delay = text::decimal_u64(COMMAND_HEARTBEAT_RETRY_DELAY / 1000);
    let limit = text::decimal_u64(COMMAND_HEARTBEAT_FAILURE_LIMIT as u64);
    (
        "data heartbeat: TX every ".to_owned().concat(tx.as_str()).concat("s"),
        "command heartbeat: every ".to_owned().concat(every.as_str()).concat("s; retry ").concat(
            delay.as_str(),
        ).concat("s x").concat(limit.as_str()),
    )
}

// ---------------------------------------------------------------------------
// The command stream
// ---------------------------------------------------------------------------

/// Where the command stream goes, and what is said on it first.
#[derive(Debug)]
pub struct CommandStreamRequest {
    pub authority: String,
    pub host: String,
    pub message: [u8; 64],
}

/// Where the command stream goes, and what is said on it first.
pub fn open_command_stream(server: &str, token: &str) -> (r: EcResult<CommandStreamRequest>)
    ensures
        match (endpoint::endpoint_of(server@), protocol_wire::token_bytes(token@)) {
            (Err(e), _) => r matches Err(f) && f@ == e,
            (Ok(_), Err(e)) => r matches Err(f) && f@ == e,
            (Ok((authority, host)), Ok(bytes)) => {
                &&& r matches Ok(q)
                &&& q.authority@ == authority
                &&& q.host@ == host
                &&& q.message@ == protocol_wire::initial_query(bytes)
            },
        },
{
    match endpoint::parse_server(server) {
        Err(e) => Err(e),
        Ok((authority, host)) => match protocol_wire::parse_protocol_token(token) {
            Err(e) => Err(e),
            Ok(bytes) => Ok(
                CommandStreamRequest {
                    authority,
                    host,
                    message: protocol_wire::build_initial_query_ip_message(&bytes),
                },
            ),
        },
    }
}

/// What a new command stream gives, from what could be written and read.
pub open spec fn command_init(
    written: Result<(), Seq<char>>,
    read: Result<Seq<u8>, EcErrorView>,
) -> Result<protocol_wire::SendIpView, EcErrorView> {
    match (written, read) {
        (Err(m), _) => Err(EcErrorView::Runtime("SEND_IP write failed: "@ + m)),
        (Ok(_), Err(e)) => Err(
            EcErrorView::Runtime("SEND_IP read failed: "@ + error::concise(e.text())),
        ),
        (Ok(_), Ok(reply)) => if reply.len() == 0 {
            Err(EcErrorView::Runtime("SEND_IP reply is empty or timed out"@))
        } else {
            protocol_wire::send_ip_of(reply)
        },
    }
}

/// Takes what came of writing the request on a new command stream and of reading the reply;
/// where nothing could be written, nothing was read.
pub fn finish_command_stream(written: Result<(), String>, read: EcResult<Vec<u8>>) -> (r: EcResult<
    CommandStreamInit,
>)
    ensures
        match (r, command_init(write_result(written), error::shown(read))) {
            (Ok(init), Ok(ips)) => {
                &&& init.ips.assigned_ip@ == ips.assigned_ip
                &&& init.ips.lan_ip@ == ips.lan_ip
            },
            (Err(e), Err(f)) => e@ == f,
            _ => false,
        },
{
    match written {
        Err(m) => {
            return Err(EcError::Runtime("SEND_IP write failed: ".to_owned().concat(m.as_str())));
        },
        Ok(_) => {},
    }
    match read {
        Err(e) => {
            let why = error::concise_error(&e);
            Err(EcError::Runtime("SEND_IP read failed: ".to_owned().concat(why.as_str())))
        },
        Ok(reply) => {
            if reply.len() == 0 {
                return Err(EcError::Runtime("SEND_IP reply is empty or timed out".to_owned()));
            }
            match protocol_wire::parse_send_ip_reply(reply.as_slice()) {
                Err(e) => Err(e),
                Ok(ips) => Ok(CommandStreamInit { ips: TunnelIps::from_reply(ips) }),
            }
        },
    }
}

/// How a command heartbeat failed.
#[derive(Debug)]
pub enum CommandHeartbeatFailure {
    /// It may go better next time.
    Retryable(String),
    /// The tunnel is over.
    Fatal(String),
}

/// A failure as plain values.
pub ghost enum HeartbeatFailureView {
    Retryable(Seq<char>),
    Fatal(Seq<char>),
}

impl View for CommandHeartbeatFailure {
    type V = HeartbeatFailureView;

    open spec fn view(&self) -> HeartbeatFailureView {
        match self {
            CommandHeartbeatFailure::Retryable(m) => HeartbeatFailureView::Retryable(m@),
            CommandHeartbeatFailure::Fatal(m) => HeartbeatFailureView::Fatal(m@),
        }
    }
}

/// What the reply to a command heartbeat means.
#[derive(Debug)]
pub enum CommandHeartbeatOutcome {
    Ack,
    Fatal(String),
}

/// Why the tunnel is over after a reply to a command heartbeat, if it is.
pub open spec fn heartbeat_verdict(data: Seq<u8>) -> Option<Seq<char>> {
    match protocol_wire::command_reply(data) {
        Err(e) => Some("command heartbeat parse failed: "@ + error::concise(e.text())),
        Ok(control) => match control {
            NativeControlType::Heartbeat => None,
            NativeControlType::Shutdown => Some(
                "command control requested tunnel shutdown: "@ + control.name(),
            ),
            NativeControlType::IpKick => Some(
                "command control requested tunnel shutdown: "@ + control.name(),
            ),
            _ => Some("unexpected command heartbeat reply: "@ + control.text()),
        },
    }
}

/// What the reply to a command heartbeat means.
pub fn classify_command_heartbeat_reply(data: &[u8]) -> (r: CommandHeartbeatOutcome)
    ensures
        match heartbeat_verdict(data@) {
            None => r is Ack,
            Some(why) => r matches CommandHeartbeatOutcome::Fatal(m) && m@ == why,
        },
{
    match protocol_wire::parse_command_control_reply(data) {
        Err(e) => {
            let why = error::concise_error(&e);
            CommandHeartbeatOutcome::Fatal(
                "command heartbeat parse failed: ".to_owned().concat(why.as_str()),
            )
        },
        Ok(control) => match control {
            NativeControlType::Heartbeat => CommandHeartbeatOutcome::Ack,
            NativeControlType::Shutdown | NativeControlType::IpKick => {
                CommandHeartbeatOutcome::Fatal(
                    "command control requested tunnel shutdown: ".to_owned().concat(
                        control.label(),
                    ),
                )
            },
            _ => {
                let shown = control.describe();
                CommandHeartbeatOutcome::Fatal(
                    "unexpected command heartbeat reply: ".to_owned().concat(shown.as_str()),
                )
            },
        },
    }
}

impl CommandHeartbeatOutcome {
    /// The outcome as a result.
    pub fn into_result(self) -> (r: Result<(), CommandHeartbeatFailure>)
        ensures
            match self {
                CommandHeartbeatOutcome::Ack => r is Ok,
                CommandHeartbeatOutcome::Fatal(m) => r == Err::<(), CommandHeartbeatFailure>(
                    CommandHeartbeatFailure::Fatal(m),
                ),
            },
    {
        match self {
            CommandHeartbeatOutcome::Ack => Ok(()),
            CommandHeartbeatOutcome::Fatal(m) => Err(CommandHeartbeatFailure::Fatal(m)),
        }
    }
}

/// The message of a command heartbeat.
pub fn command_heartbeat_message(token: &[u8; 48]) -> (r: [u8; 64])
    ensures
        r@ == protocol_wire::command_message(3, token@),
{
    protocol_wire::build_command_message(3, token)
}

/// How a command heartbeat failed, if it did, given what could be written and read.
pub open spec fn heartbeat_failure(
    written: Result<(), Seq<char>>,
    read: Result<Seq<u8>, EcErrorView>,
) -> Option<HeartbeatFailureView> {
    match (written, read) {
        (Err(m), _) => Some(
            HeartbeatFailureView::Retryable("command heartbeat write failed: "@ + m),
        ),
        (Ok(_), Err(e)) => Some(
            HeartbeatFailureView::Retryable(
                "command heartbeat read failed: "@ + error::concise(e.text()),
            ),
        ),
        (Ok(_), Ok(reply)) => if reply.len() == 0 {
            Some(
                HeartbeatFailureView::Retryable(
                    "command heartbeat reply is empty or timed out"@,
                ),
            )
        } else {
            match heartbeat_verdict(reply) {
                None => None,
                Some(why) => Some(HeartbeatFailureView::Fatal(why)),
            }
        },
    }
}

/// Takes what came of writing a command heartbeat and of reading the reply; where nothing
/// could be written, nothing was read.
pub fn send_command_heartbeat(written: Result<(), String>, read: EcResult<Vec<u8>>) -> (r: Result<
    (),
    CommandHeartbeatFailure,
>)
    ensures
        match heartbeat_failure(write_result(written), error::shown(read)) {
            None => r is Ok,
            Some(f) => r matches Err(e) && e@ == f,
        },
{
    match written {
        Err(m) => {
            return Err(
                CommandHeartbeatFailure::Retryable(
                    "command heartbeat write failed: ".to_owned().concat(m.as_str()),
                ),
            );
        },
        Ok(_) => {},
    }
    match read {
        Err(e) => {
            let why = error::concise_error(&e);
            Err(
                CommandHeartbeatFailure::Retryable(
                    "command heartbeat read failed: ".to_owned().concat(why.as_str()),
                ),
            )
        },
        Ok(reply) => {
            if reply.len() == 0 {
                return Err(
                    CommandHeartbeatFailure::Retryable(
                        "command heartbeat reply is empty or timed out".to_owned(),
                    ),
                );
            }
            classify_command_heartbeat_reply(reply.as_slice()).into_result()
        },
    }
}

/// The heartbeats on the command stream: how many of them have failed in a row.
#[derive(Debug)]
pub struct CommandHeartbeat {
    pub failure_count: u32,
}

/// What to do after a command heartbeat.
#[derive(Debug)]
pub enum HeartbeatStep {
    /// Wait that many milliseconds for the next one, with a warning if there is one.
    Sleep { millis: u64, warning: Option<String> },
    /// Give the tunnel up.
    Exit(EcError),
}

/// A step as plain values.
#[verifier::ext_equal]
pub ghost enum HeartbeatStepView {
    Sleep { millis: u64, warning: Option<Seq<char>> },
    Exit(EcErrorView),
}

impl View for HeartbeatStep {
    type V = HeartbeatStepView;

    open spec fn view(&self) -> HeartbeatStepView {
        match *self {
            HeartbeatStep::Sleep { millis, warning } => HeartbeatStepView::Sleep {
                millis,
                warning: text::shown(warning),
            },
            HeartbeatStep::Exit(e) => HeartbeatStepView::Exit(e@),
        }
    }
}

/// How many heartbeats have failed in a row, after one that went as given.
pub open spec fn failures_after(count: int, failure: Option<HeartbeatFailureView>) -> int {
    match failure {
        None => 0,
        Some(HeartbeatFailureView::Retryable(_)) => count + 1,
        Some(HeartbeatFailureView::Fatal(_)) => count,
    }
}

/// What to do after a heartbeat that went as given, where `count` had failed in a row before.
pub open spec fn heartbeat_step(count: int, failure: Option<HeartbeatFailureView>)
    -> HeartbeatStepView {
    match failure {
        None => HeartbeatStepView::Sleep { millis: COMMAND_HEARTBEAT_INTERVAL, warning: None },
        Some(HeartbeatFailureView::Fatal(m)) => HeartbeatStepView::Exit(EcErrorView::Runtime(m)),
        Some(HeartbeatFailureView::Retryable(m)) => if count + 1
            >= COMMAND_HEARTBEAT_FAILURE_LIMIT {
            HeartbeatStepView::Exit(
                EcErrorView::Runtime(
                    "command heartbeat reached failure limit ("@ + text::decimal(count + 1) + "/"@
                        + text::decimal(COMMAND_HEARTBEAT_FAILURE_LIMIT as int) + "): "@ + m,
                ),
            )
        } else {
            HeartbeatStepView::Sleep {
                millis: COMMAND_HEARTBEAT_RETRY_DELAY,
                warning: Some(
                    "command heartbeat failed: "@ + m + "; retrying in "@ + text::decimal(
                        COMMAND_HEARTBEAT_RETRY_DELAY as int / 1000,
                    ) + "s ("@ + text::decimal(count + 1) + "/"@ + text::decimal(
                        COMMAND_HEARTBEAT_FAILURE_LIMIT as int,
                    ) + ")"@,
                ),
            }
        },
    }
}

/// How a heartbeat went, as plain values.
pub open spec fn heartbeat_result(r: Result<(), CommandHeartbeatFailure>) -> Option<
    HeartbeatFailureView,
> {
    match r {
        Ok(_) => None,
        Err(e) => Some(e@),
    }
}

impl CommandHeartbeat {
    /// No heartbeat has failed yet.
    pub fn new() -> (r: Self)
        ensures
            r.failure_count == 0,
    {
        CommandHeartbeat { failure_count: 0 }
    }

    /// Takes how a heartbeat went.
    pub fn command_heartbeat_loop(&mut self, result: Result<(), CommandHeartbeatFailure>) -> (r:
        HeartbeatStep)
        requires
            old(self).failure_count < COMMAND_HEARTBEAT_FAILURE_LIMIT,
        ensures
            final(self).failure_count == failures_after(
                old(self).failure_count as int,
                heartbeat_result(result),
            ),
            r@ == heartbeat_step(old(self).failure_count as int, heartbeat_result(result)),
            r is Sleep ==> final(self).failure_count < COMMAND_HEARTBEAT_FAILURE_LIMIT,
    {
        match result {
            Ok(_) => {
                self.failure_count = 0;
                HeartbeatStep::Sleep { millis: COMMAND_HEARTBEAT_INTERVAL, warning: None }
            },
            Err(CommandHeartbeatFailure::Fatal(m)) => HeartbeatStep::Exit(EcError::Runtime(m)),
            Err(CommandHeartbeatFailure::Retryable(m)) => {
                self.failure_count = self.failure_count + 1;
                let count = text::decimal_u64(self.failure_count as u64);
                let limit = text::decimal_u64(COMMAND_HEARTBEAT_FAILURE_LIMIT as u64);
                if self.failure_count >= COMMAND_HEARTBEAT_FAILURE_LIMIT {
                    return HeartbeatStep::Exit(
                        EcError::Runtime(
                            "command heartbeat reached failure limit (".to_owned().concat(
                                count.as_str(),
                            ).concat("/").concat(limit.as_str()).concat("): ").concat(m.as_str()),
                        ),
                    );
                }
                let delay = text::decimal_u64(COMMAND_HEARTBEAT_RETRY_DELAY / 1000);
                let warning = "command heartbeat failed: ".to_owned().concat(m.as_str()).concat(
                    "; retrying in ",
                ).concat(delay.as_str()).concat("s (").concat(count.as_str()).concat("/").concat(
                    limit.as_str(),
                ).concat(")");
                HeartbeatStep::Sleep {
                    millis: COMMAND_HEARTBEAT_RETRY_DELAY,
                    warning: Some(warning),
                }
            },
        }
    }
}

/// What is said of a command stream that is given up.
pub fn command_exit_detail(err: &EcError) -> (r: String)
    ensures
        r@ == "stream closed: command; reason: "@ + error::concise(err@.text()),
{
    let why = error::concise_error(err);
    "stream closed: command; reason: ".to_owned().concat(why.as_str())
}

// ---------------------------------------------------------------------------
// The data streams
// ---------------------------------------------------------------------------

/// Whether data of the receiving stream is a packet; a report that does not belong there is
/// an error.
pub open spec fn forwards(data: Seq<u8>) -> Result<bool, EcErrorView> {
    match protocol_wire::control_frame(data) {
        None => Ok(true),
        Some(control) => if control == NativeControlType::RxAck {
            Ok(false)
        } else {
            Err(EcErrorView::Runtime("unexpected rx control frame: "@ + control.text()))
        },
    }
}

/// Whether data of the receiving stream is a packet; a report that does not belong there is
/// an error.
pub fn should_forward_rx_payload(data: &[u8]) -> (r: EcResult<bool>)
    ensures
        match (r, forwards(data@)) {
            (Ok(a), Ok(b)) => a == b,
            (Err(e), Err(f)) => e@ == f,
            _ => false,
        },
{
    match protocol_wire::parse_native_control_frame(data) {
        None => Ok(true),
        Some(control) => match control {
            NativeControlType::RxAck => Ok(false),
            _ => {
                let shown = control.describe();
                Err(
                    EcError::Runtime(
                        "unexpected rx control frame: ".to_owned().concat(shown.as_str()),
                    ),
                )
            },
        },
    }
}

/// What to do with a read from the receiving stream.
#[derive(Debug)]
pub enum RxStep {
    /// Read on.
    Continue,
    /// Hand this packet on.
    Forward(Vec<u8>),
    /// Open the stream again.
    Reopen(StreamOpenRetry),
    /// Give the tunnel up.
    Exit(EcError),
}

/// Takes a read from the receiving stream. A stream that has ended or failed is opened
/// again.
pub fn rx_worker_loop(read: ReadOutcome) -> (r: RxStep)
    ensures
        match read {
            ReadOutcome::TimedOut => r is Continue,
            ReadOutcome::Data(bytes) => match forwards(bytes@) {
                Ok(true) => r matches RxStep::Forward(p) && p@ == bytes@,
                Ok(false) => r is Continue,
                Err(f) => r matches RxStep::Exit(e) && e@ == f,
            },
            _ => {
                &&& r matches RxStep::Reopen(retry)
                &&& retry.first_attempt == 1
                &&& retry.delay_first_attempt
                &&& retry.phase@ == "reconnect"@
            },
        },
{
    match read {
        ReadOutcome::TimedOut => RxStep::Continue,
        ReadOutcome::Data(bytes) => match should_forward_rx_payload(bytes.as_slice()) {
            Err(e) => RxStep::Exit(e),
            Ok(true) => RxStep::Forward(bytes),
            Ok(false) => RxStep::Continue,
        },
        ReadOutcome::Eof => RxStep::Reopen(StreamOpenRetry::reconnect(1)),
        ReadOutcome::Failed(_) => RxStep::Reopen(StreamOpenRetry::reconnect(1)),
    }
}

/// When the next heartbeat packet is due, in milliseconds.
#[derive(Debug)]
pub struct TxSchedule {
    pub next_heartbeat: u64,
}

/// What the sending stream does next.
#[derive(Debug, Clone, Copy, PartialEq, Eq, Structural)]
pub enum TxStep {
    /// Send a heartbeat packet.
    Heartbeat,
    /// Wait that many milliseconds for a packet to send.
    Wait(u64),
}

/// What the sending stream does at `now`, where the next heartbeat packet is due at `next`, and
/// when one is due after that.
pub open spec fn tx_next(next: u64, now: u64) -> (TxStep, u64) {
    if now >= next {
        (TxStep::Heartbeat, (now + TX_HEARTBEAT_INTERVAL) as u64)
    } else {
        (TxStep::Wait((next - now) as u64), next)
    }
}

impl TxSchedule {
    /// The schedule of a stream that was opened at `now`.
    pub fn new(now: u64) -> (r: Self)
        requires
            now <= u64::MAX - TX_HEARTBEAT_INTERVAL,
        ensures
            r.next_heartbeat == now + TX_HEARTBEAT_INTERVAL,
    {
        TxSchedule { next_heartbeat: now + TX_HEARTBEAT_INTERVAL }
    }

    /// What the sending stream does at `now`.
    pub fn tx_worker_loop(&mut self, now: u64) -> (r: TxStep)
        requires
            now <= u64::MAX - TX_HEARTBEAT_INTERVAL,
        ensures
            if now >= old(self).next_heartbeat {
                &&& r == TxStep::Heartbeat
                &&& final(self).next_heartbeat == now + TX_HEARTBEAT_INTERVAL
            } else {
                &&& r == TxStep::Wait((old(self).next_heartbeat - now) as u64)
                &&& final(self).next_heartbeat == old(self).next_heartbeat
            },
            (r, final(self).next_heartbeat) == tx_next(old(self).next_heartbeat, now),
    {
        if now >= self.next_heartbeat {
            self.next_heartbeat = now + TX_HEARTBEAT_INTERVAL;
            TxStep::Heartbeat
        } else {
            TxStep::Wait(self.next_heartbeat - now)
        }
    }
}

/// What to do after a packet was written to the sending stream.
#[derive(Debug)]
pub enum TxWriteStep {
    /// Go on with the next packet.
    Continue,
    /// Open the stream again, and write the packet again.
    Reopen(StreamOpenRetry),
    /// Give the tunnel up.
    Exit(EcError),
}

/// Takes what came of writing a packet to the sending stream. A stream that fails is opened
/// again; if it fails again with the same packet, the tunnel is given up.
pub fn tx_written(written: Result<(), String>, reopened: bool) -> (r: TxWriteStep)
    ensures
        match written {
            Ok(_) => r is Continue,
            Err(m) => if reopened {
                r matches TxWriteStep::Exit(e) && e@ == EcErrorView::Runtime(
                    "tx stream write failed after reconnect: "@ + m@,
                )
            } else {
                &&& r matches TxWriteStep::Reopen(retry)
                &&& retry.first_attempt == 1
                &&& retry.delay_first_attempt
                &&& retry.phase@ == "reconnect"@
            },
        },
{
    match written {
        Ok(_) => TxWriteStep::Continue,
        Err(m) => if reopened {
            TxWriteStep::Exit(
                EcError::Runtime(
                    "tx stream write failed after reconnect: ".to_owned().concat(m.as_str()),
                ),
            )
        } else {
            TxWriteStep::Reopen(StreamOpenRetry::reconnect(1))
        },
    }
}

/// What is said of a data stream whose worker has ended.
pub open spec fn exit_detail(profile: StreamProfile, failure: Option<EcErrorView>) -> Seq<char> {
    match failure {
        None => "stream closed: "@ + profile.name() + "; reason: exited unexpectedly"@,
        Some(e) => "stream closed: "@ + profile.name() + "; reason: "@ + error::concise(e.text()),
    }
}

/// What is said of a data stream whose worker has ended.
pub fn worker_exit_detail(profile: StreamProfile, result: EcResult<()>) -> (r: String)
    ensures
        r@ == exit_detail(
            profile,
            match result {
                Ok(_) => None,
                Err(e) => Some(e@),
            },
        ),
{
    let head = "stream closed: ".to_owned().concat(profile.label());
    match result {
        Ok(_) => head.concat("; reason: exited unexpectedly"),
        Err(e) => {
            let why = error::concise_error(&e);
            head.concat("; reason: ").concat(why.as_str())
        },
    }
}

// ---------------------------------------------------------------------------
// Reading
// ---------------------------------------------------------------------------

/// A read that goes on until enough has come.
#[derive(Debug)]
pub struct ReadAtLeast {
    pub data: Vec<u8>,
    pub min_len: usize,
    pub capacity: usize,
}

impl ReadAtLeast {
    /// A read of at least `min_len` bytes into a buffer of the given size.
    pub fn read_at_least(min_len: usize, capacity: usize) -> (r: Self)
        ensures
            r.data@.len() == 0,
            r.min_len == min_len,
            r.capacity == capacity,
    {
        ReadAtLeast { data: Vec::new(), min_len, capacity }
    }

    /// How much to read next; nothing once enough has come, the buffer is full or the time
    /// is over.
    pub fn next(&self, expired: bool) -> (r: Option<usize>)
        ensures
            r == if !expired && self.data@.len() < self.min_len && self.data@.len()
                < self.capacity {
                Some((self.capacity - self.data@.len()) as usize)
            } else {
                None
            },
    {
        let total: usize = self.data.len();
        if !expired && total < self.min_len && total < self.capacity {
            Some(self.capacity - total)
        } else {
            None
        }
    }

    /// Takes one read; says whether to go on.
    pub fn take(&mut self, read: ReadOutcome) -> (r: EcResult<bool>)
        ensures
            final(self).min_len == old(self).min_len,
            final(self).capacity == old(self).capacity,
            match read {
                ReadOutcome::Eof => r matches Ok(more) && !more && final(self).data@ == old(
                    self,
                ).data@,
                ReadOutcome::TimedOut => r matches Ok(more) && more && final(self).data@ == old(
                    self,
                ).data@,
                ReadOutcome::Data(bytes) => r matches Ok(more) && more && final(self).data@ == old(
                    self,
                ).data@ + bytes@,
                ReadOutcome::Failed(m) => {
                    &&& r matches Err(e)
                    &&& e@ == EcErrorView::Runtime("stream read failed: "@ + m@)
                    &&& final(self).data@ == old(self).data@
                },
            },
            final(self).data@ == old(self).data@ + stream::received(read),
    {
        match read {
            ReadOutcome::Eof => Ok(false),
            ReadOutcome::TimedOut => Ok(true),
            ReadOutcome::Data(bytes) => {
                let mut bytes = bytes;
                self.data.append(&mut bytes);
                Ok(true)
            },
            ReadOutcome::Failed(m) => Err(
                EcError::Runtime("stream read failed: ".to_owned().concat(m.as_str())),
            ),
        }
    }
}

/// Takes one read of an answer that comes in one piece: nothing yet, the answer, or an
/// error. The end of the stream is an empty answer.
pub fn read_stream_once(read: ReadOutcome) -> (r: EcResult<Option<Vec<u8>>>)
    ensures
        match read {
            ReadOutcome::Eof => r matches Ok(Some(v)) && v@.len() == 0,
            ReadOutcome::TimedOut => r matches Ok(None),
            ReadOutcome::Data(bytes) => r matches Ok(Some(v)) && v@ == bytes@,
            ReadOutcome::Failed(m) => r matches Err(e) && e@ == EcErrorView::Runtime(
                "stream read failed: "@ + m@,
            ),
        },
        r matches Ok(Some(v)) ==> v@ == stream::received(read),
{
    match read {
        ReadOutcome::Eof => Ok(Some(Vec::new())),
        ReadOutcome::TimedOut => Ok(None),
        ReadOutcome::Data(bytes) => Ok(Some(bytes)),
        ReadOutcome::Failed(m) => Err(
            EcError::Runtime("stream read failed: ".to_owned().concat(m.as_str())),
        ),
    }
}

// ---------------------------------------------------------------------------
// What the whole process shares
// ---------------------------------------------------------------------------

/// The two ends that the tunnel hands to the rest of the process: one to send packets by,
/// and one to receive them by, which is taken once.
#[derive(Debug)]
pub struct RuntimeChannels<S, R> {
    pub sender: Option<S>,
    pub receiver: Option<R>,
}

/// What has become of the two ends: whether a tunnel has been started, and whether the end to
/// receive packets by is still there.
pub ghost struct ChannelsView {
    pub started: bool,
    pub waiting: bool,
}

/// What is done with the two ends.
pub ghost enum ChannelsCall {
    Install,
    Take,
}

impl ChannelsView {
    /// No tunnel has been started.
    pub open spec fn fresh() -> ChannelsView {
        ChannelsView { started: false, waiting: false }
    }

    /// Why a call fails, if it does.
    pub open spec fn failure(self, call: ChannelsCall) -> Option<EcErrorView> {
        match call {
            ChannelsCall::Install => if self.started || self.waiting {
                Some(EcErrorView::Runtime("tunnel runtime already started in this process"@))
            } else {
                None
            },
            ChannelsCall::Take => if self.waiting {
                None
            } else if self.started {
                Some(
                    EcErrorView::Runtime(
                        "tunnel packet receiver was already taken or not initialized"@,
                    ),
                )
            } else {
                Some(EcErrorView::Runtime("tunnel runtime is not started"@))
            },
        }
    }

    /// What has become of the two ends after a call.
    pub open spec fn after(self, call: ChannelsCall) -> ChannelsView {
        match call {
            ChannelsCall::Install => if self.failure(call) is None {
                ChannelsView { started: true, waiting: true }
            } else {
                self
            },
            ChannelsCall::Take => ChannelsView { waiting: false, ..self },
        }
    }
}

impl<S, R> RuntimeChannels<S, R> {
    /// What has become of the two ends.
    pub open spec fn state(&self) -> ChannelsView {
        ChannelsView { started: self.sender is Some, waiting: self.receiver is Some }
    }

    /// No tunnel has been started.
    pub fn new() -> (r: Self)
        ensures
            r.sender is None,
            r.receiver is None,
            r.state() == ChannelsView::fresh(),
    {
        RuntimeChannels { sender: None, receiver: None }
    }
}

/// Hands the two ends over; only once in the life of the process.
pub fn install_runtime_channels<S, R>(
    channels: &mut RuntimeChannels<S, R>,
    sender: S,
    receiver: R,
) -> (r: EcResult<()>)
    ensures
        final(channels).state() == old(channels).state().after(ChannelsCall::Install),
        match old(channels).state().failure(ChannelsCall::Install) {
            Some(f) => {
                &&& r matches Err(e)
                &&& e@ == f
                &&& *final(channels) == *old(channels)
            },
            None => {
                &&& r is Ok
                &&& final(channels).sender == Some(sender)
                &&& final(channels).receiver == Some(receiver)
            },
        },
{
    if channels.sender.is_some() || channels.receiver.is_some() {
        return Err(
            EcError::Runtime("tunnel runtime already started in this process".to_owned()),
        );
    }
    channels.sender = Some(sender);
    channels.receiver = Some(receiver);
    Ok(())
}

/// The end to send packets by.
pub fn send_tunnel_packet<S, R>(channels: &RuntimeChannels<S, R>) -> (r: EcResult<&S>)
    ensures
        match channels.sender {
            Some(s) => r == Ok::<&S, EcError>(&s),
            None => r matches Err(e) && e@ == EcErrorView::Runtime(
                "tunnel runtime is not started"@,
            ),
        },
{
    match &channels.sender {
        Some(s) => Ok(s),
        None => Err(EcError::Runtime("tunnel runtime is not started".to_owned())),
    }
}

/// Takes the end to receive packets by.
pub fn take_tunnel_packet_receiver<S, R>(channels: &mut RuntimeChannels<S, R>) -> (r: EcResult<R>)
    ensures
        final(channels).sender == old(channels).sender,
        final(channels).receiver is None,
        final(channels).state() == old(channels).state().after(ChannelsCall::Take),
        match old(channels).state().failure(ChannelsCall::Take) {
            Some(f) => r matches Err(e) && e@ == f,
            None => old(channels).receiver matches Some(receiver) && r == Ok::<R, EcError>(
                receiver,
            ),
        },
{
    let taken = channels.receiver.take();
    match taken {
        Some(receiver) => Ok(receiver),
        None => if channels.sender.is_some() {
            Err(
                EcError::Runtime(
                    "tunnel packet receiver was already taken or not initialized".to_owned(),
                ),
            )
        } else {
            Err(EcError::Runtime("tunnel runtime is not started".to_owned()))
        },
    }
}

/// What happens to the reason why the tunnel is over.
pub ghost enum FatalEvent {
    /// Somebody gives a reason.
    Record(Seq<char>),
    /// A new tunnel is started.
    Clear,
}

/// Why the tunnel is over after an event: the first reason stays until it is cleared.
pub open spec fn reason_after(known: Option<Seq<char>>, event: FatalEvent) -> Option<Seq<char>> {
    match event {
        FatalEvent::Clear => None,
        FatalEvent::Record(reason) => match known {
            Some(first) => Some(first),
            None => Some(reason),
        },
    }
}

/// Why the tunnel is over, once it is.
#[derive(Debug)]
pub struct TunnelFatalState {
    pub reason: Option<String>,
}

impl View for TunnelFatalState {
    type V = Option<Seq<char>>;

    open spec fn view(&self) -> Option<Seq<char>> {
        text::shown(self.reason)
    }
}

impl TunnelFatalState {
    /// The tunnel is not over.
    pub fn new() -> (r: Self)
        ensures
            r@ is None,
    {
        TunnelFatalState { reason: None }
    }

    /// Forgets why a former tunnel was over.
    pub fn clear_tunnel_fatal_reason(&mut self)
        ensures
            final(self)@ == reason_after(old(self)@, FatalEvent::Clear),
    {
        self.reason = None;
    }

    /// Says why the tunnel is over. The first reason stays; the result says whether this was
    /// it.
    pub fn record_tunnel_fatal_reason(&mut self, reason: String) -> (r: bool)
        ensures
            r == (old(self)@ is None),
            final(self)@ == reason_after(old(self)@, FatalEvent::Record(reason@)),
    {
        if self.reason.is_none() {
            self.reason = Some(reason);
            true
        } else {
            false
        }
    }

    /// Why the tunnel is over, once it is.
    pub fn tunnel_fatal_reason(&self) -> (r: Option<String>)
        ensures
            text::shown(r) == self@,
    {
        match &self.reason {
            Some(m) => Some(m.clone()),
            None => None,
        }
    }
}

// ---------------------------------------------------------------------------
// Laws
// ---------------------------------------------------------------------------

/// Opening a stream is tried until the limit is reached, and no longer: after fewer failures
/// there is another attempt, after as many the error names the last of them.
pub proof fn law_attempts_are_bounded(o: OpenView, failures: Seq<EcErrorView>)
    requires
        o.attempt == o.retry.first_attempt,
        o.retry.first_attempt <= STREAM_RETRY_LIMIT,
    ensures
        failures.len() + o.retry.first_attempt <= STREAM_RETRY_LIMIT ==> o.after_failures(
            failures,
        ).trying(),
        failures.len() + o.retry.first_attempt == STREAM_RETRY_LIMIT + 1 ==> {
            &&& !o.after_failures(failures).trying()
            &&& o.after_failures(failures).last_error == Some(
                error::concise(failures.last().text()),
            )
        },
{
    lemma_after_failures(o, failures);
}

proof fn lemma_after_failures(o: OpenView, failures: Seq<EcErrorView>)
    ensures
        o.after_failures(failures).attempt == o.attempt + failures.len(),
        failures.len() > 0 ==> o.after_failures(failures).last_error == Some(
            error::concise(failures.last().text()),
        ),
    decreases failures.len(),
{
    if failures.len() > 0 {
        lemma_after_failures(o.after_failure(failures[0]), failures.skip(1));
        if failures.len() > 1 {
            assert(failures.skip(1).last() == failures.last());
        } else {
            assert(failures.skip(1).len() == 0);
        }
    }
}

/// Every attempt but the first of a new stream comes after a pause.
pub proof fn law_only_the_first_open_does_not_pause(o: OpenView)
    requires
        o.attempt >= o.retry.first_attempt,
    ensures
        !o.pauses() <==> o.attempt == o.retry.first_attempt && !o.retry.delay_first_attempt,
{
}

/// The report that a stream asks for is the one that is accepted for it, and no other
/// control frame is.
pub proof fn law_only_the_own_ack_is_accepted(
    profile: StreamProfile,
    kind: StreamOpenKind,
    reply: Seq<u8>,
)
    requires
        protocol_wire::control_frame(reply) is Some,
    ensures
        ack_failure(profile, profile.op(kind), profile.ack(), reply) is None
            <==> protocol_wire::control_frame(reply) == Some(profile.ack()),
{
}

/// A heartbeat that is answered wipes out all the failures before it: the next failure is the
/// first one again, and does not end the tunnel.
pub proof fn law_success_resets_failures(count: int, m: Seq<char>)
    ensures
        failures_after(count, None) == 0,
        heartbeat_step(
            failures_after(count, None),
            Some(HeartbeatFailureView::Retryable(m)),
        ) is Sleep,
{
}

/// How many of the heartbeats that went as given have failed in a row at the end.
pub open spec fn failures_in_a_row(results: Seq<Option<HeartbeatFailureView>>) -> int
    decreases results.len(),
{
    if results.len() == 0 {
        0
    } else {
        failures_after(failures_in_a_row(results.drop_last()), results.last())
    }
}

/// The tunnel is still there after heartbeats that went as given.
pub open spec fn survives(results: Seq<Option<HeartbeatFailureView>>) -> bool
    decreases results.len(),
{
    results.len() > 0 ==> {
        &&& survives(results.drop_last())
        &&& heartbeat_step(failures_in_a_row(results.drop_last()), results.last()) is Sleep
    }
}

/// The heartbeat failed in a way that may go better next time.
pub open spec fn retryable(result: Option<HeartbeatFailureView>) -> bool {
    result matches Some(HeartbeatFailureView::Retryable(_))
}

/// From `i` on, as many heartbeats have failed as end the tunnel.
pub open spec fn streak(results: Seq<Option<HeartbeatFailureView>>, i: int) -> bool {
    &&& 0 <= i <= results.len() - COMMAND_HEARTBEAT_FAILURE_LIMIT
    &&& forall|j: int|
        i <= j < i + COMMAND_HEARTBEAT_FAILURE_LIMIT ==> retryable(#[trigger] results[j])
}

/// Heartbeats end the tunnel exactly if one of them fails fatally, or as many of them as the
/// limit says fail one after the other.
pub proof fn law_failures_in_a_row_end_the_tunnel(results: Seq<Option<HeartbeatFailureView>>)
    ensures
        survives(results) <==> {
            &&& forall|i: int|
                0 <= i < results.len() ==> (#[trigger] results[i] is None || retryable(results[i]))
            &&& forall|i: int| !#[trigger] streak(results, i)
        },
    decreases results.len(),
{
    let n = results.len() as int;
    let limit = COMMAND_HEARTBEAT_FAILURE_LIMIT as int;
    if n > 0 {
        let before = results.drop_last();
        law_failures_in_a_row_end_the_tunnel(before);
        assert forall|i: int| 0 <= i < n - limit implies streak(before, i) == #[trigger] streak(
            results,
            i,
        ) by {
            assert(forall|j: int| i <= j < i + limit ==> before[j] == #[trigger] results[j]);
            assert(forall|j: int| i <= j < i + limit ==> #[trigger] before[j] == results[j]);
        }
        if survives(before) {
            lemma_failures_in_a_row(before);
            let k = failures_in_a_row(before);
            assert(forall|i: int| 0 <= i < n - 1 ==> before[i] == #[trigger] results[i]);
            assert(forall|i: int| 0 <= i < n - 1 ==> #[trigger] before[i] == results[i]);
            if retryable(results[n - 1]) && k + 1 >= limit {
                assert(streak(results, n - limit));
            }
            if streak(results, n - limit) {
                assert(retryable(results[n - 1]));
                if k + 1 < limit {
                    assert(results[n - 2 - k] is None);
                    assert(retryable(results[n - 2 - k]));
                }
            }
        } else {
            if exists|i: int| streak(before, i) {
                let i = choose|i: int| streak(before, i);
                assert(streak(results, i));
            } else {
                let i = choose|i: int|
                    0 <= i < before.len() && !(#[trigger] before[i] is None || retryable(before[i]));
                assert(results[i] == before[i]);
            }
        }
    }
}

proof fn lemma_failures_in_a_row(results: Seq<Option<HeartbeatFailureView>>)
    requires
        forall|i: int|
            0 <= i < results.len() ==> (#[trigger] results[i] is None || retryable(results[i])),
    ensures
        ({
            let k = failures_in_a_row(results);
            &&& 0 <= k <= results.len()
            &&& forall|j: int|
                results.len() - k <= j < results.len() ==> retryable(#[trigger] results[j])
            &&& k < results.len() ==> results[results.len() - k - 1] is None
        }),
    decreases results.len(),
{
    if results.len() > 0 {
        let before = results.drop_last();
        assert(forall|i: int| 0 <= i < before.len() ==> #[trigger] before[i] == results[i]);
        assert(forall|i: int| 0 <= i < before.len() ==> before[i] == #[trigger] results[i]);
        lemma_failures_in_a_row(before);
    }
}

/// Why the tunnel is over after several events.
pub open spec fn reason_after_all(known: Option<Seq<char>>, events: Seq<FatalEvent>) -> Option<
    Seq<char>,
>
    decreases events.len(),
{
    if events.len() == 0 {
        known
    } else {
        reason_after(reason_after_all(known, events.drop_last()), events.last())
    }
}

/// Events in which nothing but reasons is given.
pub open spec fn recordings(reasons: Seq<Seq<char>>) -> Seq<FatalEvent> {
    reasons.map_values(|reason: Seq<char>| FatalEvent::Record(reason))
}

/// Over any number of recordings without a clear between them, the first reason stays: one
/// that was there before, or else the first that is recorded.
pub proof fn law_first_reason_stays(known: Option<Seq<char>>, reasons: Seq<Seq<char>>)
    ensures
        reason_after_all(known, recordings(reasons)) == match known {
            Some(first) => Some(first),
            None => if reasons.len() == 0 {
                None
            } else {
                Some(reasons[0])
            },
        },
    decreases reasons.len(),
{
    if reasons.len() > 0 {
        law_first_reason_stays(known, reasons.drop_last());
        assert(recordings(reasons).drop_last() =~= recordings(reasons.drop_last()));
        assert(recordings(reasons).last() == FatalEvent::Record(reasons.last()));
    }
}

/// After a clear nothing of what was recorded before counts: the first reason recorded since
/// then is the reason.
pub proof fn law_clearing_starts_afresh(
    known: Option<Seq<char>>,
    before: Seq<FatalEvent>,
    reasons: Seq<Seq<char>>,
)
    ensures
        reason_after_all(known, before.push(FatalEvent::Clear) + recordings(reasons))
            == reason_after_all(None, recordings(reasons)),
    decreases reasons.len(),
{
    let events = before.push(FatalEvent::Clear) + recordings(reasons);
    if reasons.len() > 0 {
        law_clearing_starts_afresh(known, before, reasons.drop_last());
        assert(events.drop_last() =~= before.push(FatalEvent::Clear) + recordings(
            reasons.drop_last(),
        ));
        assert(recordings(reasons).drop_last() =~= recordings(reasons.drop_last()));
        assert(events.last() == recordings(reasons).last());
    } else {
        assert(events =~= before.push(FatalEvent::Clear));
        assert(events.drop_last() =~= before);
        assert(recordings(reasons).len() == 0);
    }
}

/// What has become of the two ends after several calls.
pub open spec fn channels_after(start: ChannelsView, calls: Seq<ChannelsCall>) -> ChannelsView
    decreases calls.len(),
{
    if calls.len() == 0 {
        start
    } else {
        channels_after(start, calls.drop_last()).after(calls.last())
    }
}

/// The call at `i` takes the end to receive packets by, and succeeds.
pub open spec fn takes_it(calls: Seq<ChannelsCall>, i: int) -> bool {
    &&& 0 <= i < calls.len()
    &&& calls[i] is Take
    &&& channels_after(ChannelsView::fresh(), calls.take(i)).failure(ChannelsCall::Take) is None
}

proof fn lemma_receiver_stays_away(calls: Seq<ChannelsCall>, i: int, j: int)
    requires
        takes_it(calls, i),
        i < j <= calls.len(),
    ensures
        ({
            let state = channels_after(ChannelsView::fresh(), calls.take(j));
            state.started && !state.waiting
        }),
    decreases j,
{
    assert(calls.take(j).drop_last() =~= calls.take(j - 1));
    assert(calls.take(j).last() == calls[j - 1]);
    if j > i + 1 {
        lemma_receiver_stays_away(calls, i, j - 1);
    } else {
        lemma_waiting_means_started(calls.take(i));
    }
}

proof fn lemma_waiting_means_started(calls: Seq<ChannelsCall>)
    ensures
        channels_after(ChannelsView::fresh(), calls).waiting ==> channels_after(
            ChannelsView::fresh(),
            calls,
        ).started,
    decreases calls.len(),
{
    if calls.len() > 0 {
        lemma_waiting_means_started(calls.drop_last());
    }
}

/// However often ends are handed over and taken, at most one call ever takes the end to
/// receive packets by; every later one is told that it was taken already.
pub proof fn law_receiver_is_taken_once(calls: Seq<ChannelsCall>, i: int, j: int)
    requires
        takes_it(calls, i),
        i < j < calls.len(),
        calls[j] is Take,
    ensures
        !takes_it(calls, j),
        channels_after(ChannelsView::fresh(), calls.take(j)).failure(ChannelsCall::Take) == Some(
            EcErrorView::Runtime("tunnel packet receiver was already taken or not initialized"@),
        ),
{
    lemma_receiver_stays_away(calls, i, j);
}

/// As long as no ends have been handed over, whoever wants to take one is told that the
/// tunnel is not started.
pub proof fn law_nothing_to_take_before_a_start(calls: Seq<ChannelsCall>)
    requires
        forall|i: int| 0 <= i < calls.len() ==> (#[trigger] calls[i]) is Take,
    ensures
        channels_after(ChannelsView::fresh(), calls).failure(ChannelsCall::Take) == Some(
            EcErrorView::Runtime("tunnel runtime is not started"@),
        ),
    decreases calls.len(),
{
    if calls.len() > 0 {
        assert(calls.last() is Take);
        assert forall|i: int| 0 <= i < calls.drop_last().len() implies (
        #[trigger] calls.drop_last()[i]) is Take by {
            assert(calls.drop_last()[i] == calls[i]);
        }
        law_nothing_to_take_before_a_start(calls.drop_last());
    }
}

/// A command heartbeat is answered by the report with number fifteen, and by nothing else; the
/// reports with numbers eight and fourteen ask for the end of the tunnel.
pub proof fn law_heartbeats_are_answered_by_heartbeats(data: Seq<u8>)
    ensures
        heartbeat_verdict(data) is None <==> (protocol_wire::command_reply(data) matches Ok(r)
            && r.number() == 15),
        (protocol_wire::command_reply(data) matches Ok(r) && (r.number() == 8 || r.number() == 14))
            ==> (heartbeat_verdict(data) matches Some(m)
            && "command control requested tunnel shutdown: "@.is_prefix_of(m)),
{
    let asked = "command control requested tunnel shutdown: "@;
    if let Ok(r) = protocol_wire::command_reply(data) {
        lemma_reports_are_known(data);
        let m = asked + r.name();
        assert(m.take(asked.len() as int) =~= asked);
    }
}

proof fn lemma_reports_are_known(data: Seq<u8>)
    ensures
        protocol_wire::command_reply(data) matches Ok(r) ==> protocol_wire::control_of(r.number())
            == r,
{
}

/// A command heartbeat that could not be written, or was not answered, may be tried again; an
/// answer other than the right one ends the tunnel at once.
pub proof fn law_silence_is_tried_again(
    written: Result<(), Seq<char>>,
    read: Result<Seq<u8>, EcErrorView>,
)
    ensures
        ({
            let silent = written is Err || read is Err || read->Ok_0.len() == 0;
            let failure = heartbeat_failure(written, read);
            &&& silent ==> (failure matches Some(HeartbeatFailureView::Retryable(_)))
            &&& !silent && heartbeat_verdict(read->Ok_0) is None ==> failure is None
            &&& !silent && heartbeat_verdict(read->Ok_0) is Some ==> (
            failure matches Some(HeartbeatFailureView::Fatal(_)))
        }),
{
}

/// After a command heartbeat that was answered the next one comes in thirty seconds; the first
/// and the second that fail in a row are tried again after one second, and the third ends the
/// tunnel, as does a fatal answer at once.
pub proof fn law_third_failure_ends_the_tunnel(count: int, m: Seq<char>)
    requires
        0 <= count <= 2,
    ensures
        heartbeat_step(count, None) == (HeartbeatStepView::Sleep { millis: 30_000, warning: None }),
        count < 2 ==> (heartbeat_step(
            count,
            Some(HeartbeatFailureView::Retryable(m)),
        ) matches HeartbeatStepView::Sleep { millis, warning } && millis == 1_000 && warning
            is Some),
        count == 2 ==> heartbeat_step(count, Some(HeartbeatFailureView::Retryable(m))) is Exit,
        heartbeat_step(count, Some(HeartbeatFailureView::Fatal(m))) == HeartbeatStepView::Exit(
            EcErrorView::Runtime(m),
        ),
        failures_after(count, Some(HeartbeatFailureView::Retryable(m))) == count + 1,
        failures_after(count, None) == 0,
{
}

/// What comes on the receiving stream is a packet, to be handed on, unless it is a control
/// frame; of these the report with number one is passed over, and any other ends the tunnel.
pub proof fn law_packets_are_handed_on(data: Seq<u8>)
    ensures
        protocol_wire::control_frame(data) is None <==> forwards(data) == Ok::<bool, EcErrorView>(
            true,
        ),
        forwards(data) == Ok::<bool, EcErrorView>(false) <==> (protocol_wire::control_frame(
            data,
        ) matches Some(r) && r.number() == 1),
        data.len() != 40 ==> forwards(data) == Ok::<bool, EcErrorView>(true),
{
    if let Some(r) = protocol_wire::control_frame(data) {
        assert(protocol_wire::control_of(r.number()) == r);
    }
}

/// The receiving stream is opened by the report with number one, the sending stream by the one
/// with number two. An answer that is no control frame is taken by its first byte.
pub proof fn law_streams_are_opened_by_their_report(
    profile: StreamProfile,
    kind: StreamOpenKind,
    reply: Seq<u8>,
)
    requires
        reply.len() > 0,
    ensures
        ({
            let wanted: int = if profile is Rx {
                1
            } else {
                2
            };
            let accepted = open_failure(profile, kind, Ok(()), Ok(reply)) is None;
            &&& protocol_wire::control_frame(reply) matches Some(r) ==> (accepted <==> r.number()
                == wanted)
            &&& protocol_wire::control_frame(reply) is None ==> (accepted <==> reply[0] == wanted)
        }),
{
    if let Some(r) = protocol_wire::control_frame(reply) {
        assert(protocol_wire::control_of(r.number()) == r);
    }
}

/// A stream is open only if the handshake was written and something came back; the error is that
/// of the first step that failed.
pub proof fn law_streams_need_an_answer(
    profile: StreamProfile,
    kind: StreamOpenKind,
    m: Seq<char>,
    read: Result<Seq<u8>, EcErrorView>,
    e: EcErrorView,
)
    ensures
        open_failure(profile, kind, Err(m), read) == Some(
            EcErrorView::Runtime("stream handshake write failed: "@ + m),
        ),
        open_failure(profile, kind, Ok(()), Err(e)) == Some(e),
        open_failure(profile, kind, Ok(()), Ok(Seq::empty())) is Some,
        command_init(Err(m), read) is Err,
        command_init(Ok(()), Err(e)) is Err,
        command_init(Ok(()), Ok(Seq::empty())) is Err,
        read matches Ok(reply) && reply.len() > 0 ==> command_init(Ok(()), read)
            == protocol_wire::send_ip_of(read->Ok_0),
{
}

/// The numbers with which the streams are asked for: six and seven for receiving, five and eight
/// for sending, the first time and again; the message that asks begins with the number, carries
/// the token and ends with the address backwards.
#[verifier::rlimit(40)]
pub proof fn law_streams_are_asked_for_by_number(
    profile: StreamProfile,
    kind: StreamOpenKind,
    token: Seq<u8>,
    ip: Seq<u8>,
)
    requires
        token.len() == 48,
        ip.len() == 4,
    ensures
        ({
            let m = protocol_wire::handshake_message(profile.op(kind), token, ip.reverse());
            &&& m[0] == match (profile, kind) {
                (StreamProfile::Rx, StreamOpenKind::First) => 6,
                (StreamProfile::Rx, StreamOpenKind::Resume) => 7,
                (StreamProfile::Tx, StreamOpenKind::First) => 5int,
                (StreamProfile::Tx, StreamOpenKind::Resume) => 8,
            }
            &&& m.subrange(4, 52) == token
            &&& m[60] == ip[3] && m[61] == ip[2] && m[62] == ip[1] && m[63] == ip[0]
        }),
{
    let back = ip.reverse();
    assert(back[0] == ip[3] && back[1] == ip[2] && back[2] == ip[1] && back[3] == ip[0]);
    protocol_wire::lemma_handshake_bytes(profile.op(kind), token, back);
}

/// A stream that is opened for the first time is tried six times, and one that is opened again
/// five times; then the error names the last failure.
pub proof fn law_streams_are_tried_six_times(o: OpenView, failures: Seq<EcErrorView>)
    requires
        o.attempt == o.retry.first_attempt,
        o.retry.first_attempt <= 1,
        o.last_error is None,
    ensures
        o.after_failures(failures).trying() <==> failures.len() + o.retry.first_attempt < 6,
        failures.len() > 0 ==> o.after_failures(failures).gave_up() == EcErrorView::Runtime(
            o.profile.name() + " stream reached retry limit during "@ + o.retry.phase@
                + "; last error: "@ + error::concise(failures.last().text()),
        ),
{
    lemma_after_failures(o, failures);
    lemma_same_stream(o, failures);
}

proof fn lemma_same_stream(o: OpenView, failures: Seq<EcErrorView>)
    ensures
        o.after_failures(failures).profile == o.profile,
        o.after_failures(failures).retry == o.retry,
    decreases failures.len(),
{
    if failures.len() > 0 {
        lemma_same_stream(o.after_failure(failures[0]), failures.skip(1));
    }
}

/// A number that is written as eight bytes, the lowest first, is read back.
#[verifier::rlimit(40)]
pub proof fn law_eight_bytes_are_read_back(v: u64)
    ensures
        le64_bytes(v).len() == 8,
        le64_at(le64_bytes(v), 0) == v,
{
    let v7 = v / 0x100_0000_0000_0000;
    assert(v / 0x100 / 0x100 == v / 0x1_0000);
    assert(v / 0x1_0000 / 0x100 == v / 0x100_0000);
    assert(v / 0x100_0000 / 0x100 == v / 0x1_0000_0000);
    assert(v / 0x1_0000_0000 / 0x100 == v / 0x100_0000_0000);
    assert(v / 0x100_0000_0000 / 0x100 == v / 0x1_0000_0000_0000);
    assert(v / 0x1_0000_0000_0000 / 0x100 == v / 0x100_0000_0000_0000);
    assert(v7 < 256);
}

/// Heartbeat packets go out twelve seconds apart: as long as one is not due, the time to wait is
/// the time that is left, and once it has been sent the next is due twelve seconds later.
pub proof fn law_heartbeat_packets_are_twelve_seconds_apart(next: u64, now: u64, later: u64)
    requires
        now <= u64::MAX - 12_000,
        now <= later <= u64::MAX - 12_000,
    ensures
        now >= next ==> tx_next(next, now) == (TxStep::Heartbeat, (now + 12_000) as u64),
        now < next ==> {
            &&& tx_next(next, now).0 matches TxStep::Wait(left) && now + left == next
            &&& tx_next(next, now).1 == next
            &&& tx_next(tx_next(next, now).1, later).0 is Heartbeat <==> later >= next
        },
        tx_next(tx_next(now, now).1, later).0 is Heartbeat <==> later >= now + 12_000,
{
}

proof fn lemma_product_is_undone(x: u64, m: int, inverse: int, k: int)
    requires
        m * inverse == 1 + k * 0x1_0000_0000_0000_0000,
    ensures
        ((x * m) % 0x1_0000_0000_0000_0000) * inverse % 0x1_0000_0000_0000_0000 == x,
{
    let n = 0x1_0000_0000_0000_0000int;
    let y = (x as int) * m;
    vstd::arithmetic::div_mod::lemma_mul_mod_noop_left(y, inverse, n);
    assert(y * inverse == x + (x * k) * n) by (nonlinear_arith)
        requires
            y == x * m,
            m * inverse == 1 + k * n,
    ;
    vstd::arithmetic::div_mod::lemma_mod_multiples_vanish(x * k, x as int, n);
    assert(n * (x * k) + x == x + (x * k) * n) by (nonlinear_arith);
    vstd::arithmetic::div_mod::lemma_small_mod(x as nat, n as nat);
}

#[verifier::rlimit(40)]
proof fn lemma_splitmix_tells_apart(x: u64, y: u64)
    requires
        splitmix(x) == splitmix(y),
    ensures
        x == y,
{
    let a = x.wrapping_add(0x9e3779b97f4a7c15);
    let b = (a ^ (a >> 30)).wrapping_mul(0xbf58476d1ce4e5b9);
    let c = (b ^ (b >> 27)).wrapping_mul(0x94d049bb133111eb);
    let d = y.wrapping_add(0x9e3779b97f4a7c15);
    let e = (d ^ (d >> 30)).wrapping_mul(0xbf58476d1ce4e5b9);
    let f = (e ^ (e >> 27)).wrapping_mul(0x94d049bb133111eb);
    assert(c == f) by (bit_vector)
        requires
            c ^ (c >> 31) == f ^ (f >> 31),
    ;
    lemma_product_is_undone(
        b ^ (b >> 27),
        0x94d049bb133111eb,
        0x319642b2d24d8ec3,
        2077064247507883091,
    );
    lemma_product_is_undone(
        e ^ (e >> 27),
        0x94d049bb133111eb,
        0x319642b2d24d8ec3,
        2077064247507883091,
    );
    assert(b ^ (b >> 27) == e ^ (e >> 27));
    assert(b == e) by (bit_vector)
        requires
            b ^ (b >> 27) == e ^ (e >> 27),
    ;
    lemma_product_is_undone(
        a ^ (a >> 30),
        0xbf58476d1ce4e5b9,
        0x96de1b173f119089,
        8125545580553827436,
    );
    lemma_product_is_undone(
        d ^ (d >> 30),
        0xbf58476d1ce4e5b9,
        0x96de1b173f119089,
        8125545580553827436,
    );
    assert(a ^ (a >> 30) == d ^ (d >> 30));
    assert(a == d) by (bit_vector)
        requires
            a ^ (a >> 30) == d ^ (d >> 30),
    ;
}

proof fn lemma_stirring_tells_apart(x: u64, y: u64, token: Seq<u8>, m: int, n: int)
    requires
        0 <= m <= n,
        stirred(x, token, m) != stirred(y, token, m),
    ensures
        stirred(x, token, n) != stirred(y, token, n),
    decreases n - m,
{
    if m < n {
        lemma_stirring_tells_apart(x, y, token, m, n - 1);
        let a = stirred(x, token, n - 1);
        let b = stirred(y, token, n - 1);
        let word = le64_at(token, 8 * (n - 1));
        let r = (word << 13) | (word >> 51);
        if stirred(x, token, n) == stirred(y, token, n) {
            lemma_splitmix_tells_apart(a ^ r, b ^ r);
            assert(a == b) by (bit_vector)
                requires
                    a ^ r == b ^ r,
            ;
        }
    }
}

proof fn lemma_token_is_stirred_in(seed: u64, s: Seq<u8>, t: Seq<u8>, k: int, n: int)
    requires
        0 <= k,
        forall|j: int| 0 <= j < n && j != k ==> #[trigger] le64_at(s, 8 * j) == le64_at(t, 8 * j),
        le64_at(s, 8 * k) != le64_at(t, 8 * k),
    ensures
        n <= k ==> stirred(seed, s, n) == stirred(seed, t, n),
        n > k ==> stirred(seed, s, n) != stirred(seed, t, n),
    decreases n,
{
    if n > 0 {
        lemma_token_is_stirred_in(seed, s, t, k, n - 1);
        let a = stirred(seed, s, n - 1);
        let b = stirred(seed, t, n - 1);
        let v = le64_at(s, 8 * (n - 1));
        let w = le64_at(t, 8 * (n - 1));
        let p = (v << 13) | (v >> 51);
        let q = (w << 13) | (w >> 51);
        if n - 1 == k {
            if stirred(seed, s, n) == stirred(seed, t, n) {
                lemma_splitmix_tells_apart(a ^ p, b ^ q);
                assert(p == q) by (bit_vector)
                    requires
                        a ^ p == b ^ q,
                        a == b,
                ;
                assert(v == w) by (bit_vector)
                    requires
                        (v << 13) | (v >> 51) == (w << 13) | (w >> 51),
                ;
            }
        } else {
            assert(v == w);
            if n > k && stirred(seed, s, n) == stirred(seed, t, n) {
                lemma_splitmix_tells_apart(a ^ p, b ^ p);
                assert(a == b) by (bit_vector)
                    requires
                        a ^ p == b ^ p,
                ;
            }
        }
    }
}

/// The tail of the heartbeats tells tunnels apart: one that is started at another time, or with
/// a token that differs in one of its six words, has another tail.
#[verifier::rlimit(40)]
pub proof fn law_tails_tell_tunnels_apart(
    now: u64,
    other: u64,
    process_id: u32,
    s: Seq<u8>,
    t: Seq<u8>,
    k: int,
    ip: Seq<u8>,
)
    requires
        0 <= k < 6,
        forall|j: int| 0 <= j < 6 && j != k ==> #[trigger] le64_at(s, 8 * j) == le64_at(t, 8 * j),
    ensures
        now != other ==> tail_of(now, process_id, s, ip) != tail_of(other, process_id, s, ip),
        le64_at(s, 8 * k) != le64_at(t, 8 * k) ==> tail_of(now, process_id, s, ip) != tail_of(
            now,
            process_id,
            t,
            ip,
        ),
        tail_of(now, process_id, s, ip).len() == 8,
{
    let x = tail_seed(now, process_id, ip);
    let y = tail_seed(other, process_id, ip);
    if now != other {
        let p = (process_id as u64) << 32;
        let a = (0x100_0000 * ip[0] + 0x1_0000 * ip[1] + 0x100 * ip[2] + ip[3]) as u64;
        assert(x != y) by (bit_vector)
            requires
                now != other,
                x == now ^ p ^ a,
                y == other ^ p ^ a,
        ;
        lemma_stirring_tells_apart(x, y, s, 0, 6);
        lemma_bytes_tell_apart(stirred(x, s, 6), stirred(y, s, 6));
    }
    if le64_at(s, 8 * k) != le64_at(t, 8 * k) {
        lemma_token_is_stirred_in(x, s, t, k, 6);
        lemma_bytes_tell_apart(stirred(x, s, 6), stirred(x, t, 6));
    }
}

proof fn lemma_bytes_tell_apart(a: u64, b: u64)
    requires
        a != b,
    ensures
        le64_bytes(splitmix(a)) != le64_bytes(splitmix(b)),
{
    law_eight_bytes_are_read_back(splitmix(a));
    law_eight_bytes_are_read_back(splitmix(b));
    if splitmix(a) == splitmix(b) {
        lemma_splitmix_tells_apart(a, b);
    }
}

/// A tunnel asks for its streams with its token and its own address backwards, and sends its
/// heartbeats from its own address to that of the gateway, with the last sixteen bytes of the
/// token as the session.
#[verifier::rlimit(40)]
pub proof fn law_tunnels_speak_for_their_address(
    authority: Seq<char>,
    host: Seq<char>,
    token: Seq<u8>,
    own: Seq<u8>,
    gateway: Seq<u8>,
    now: u64,
    process_id: u32,
    profile: StreamProfile,
    kind: StreamOpenKind,
)
    requires
        token.len() == 48,
        own.len() == 4,
        gateway.len() == 4,
    ensures
        ({
            let p = params_of(authority, host, token, own, gateway, now, process_id);
            let asked = p.handshake(profile, kind);
            let beat = p.heartbeat();
            &&& asked.subrange(4, 52) == token
            &&& asked[60] == own[3] && asked[61] == own[2] && asked[62] == own[1] && asked[63]
                == own[0]
            &&& beat.subrange(12, 16) == own
            &&& beat.subrange(16, 20) == gateway
            &&& beat.subrange(46, 62) == token.skip(32)
            &&& p.authority == authority && p.host == host
        }),
{
    law_streams_are_asked_for_by_number(profile, kind, token, own);
    let tail = tail_of(now, process_id, token, own);
    protocol_wire::law_heartbeat_says_who_and_what(own, gateway, token.subrange(32, 48), tail);
    assert(token.subrange(32, 48) =~= token.skip(32));
}

} // verus!
