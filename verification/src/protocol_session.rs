//! The TLS session that the gateway expects to be resumed.

use vstd::prelude::*;
use crate::error::{EcError, EcErrorView};

verus! {

/// The session id: the letters `L3IP`, and zeros.
pub open spec fn session_id() -> Seq<u8> {
    seq![76u8, 51, 73, 80] + Seq::new(28, |i: int| 0u8)
}

/// The master key: each byte is its place, mixed and moved.
pub open spec fn master_key() -> Seq<u8> {
    Seq::new(48, |i: int| ((i as u8) ^ 0x5a).wrapping_add(0x11))
}

/// The session id: the letters `L3IP`, and zeros.
pub fn l3ip_session_id() -> (r: [u8; 32])
    ensures
        r@ == seq![76u8, 51, 73, 80] + Seq::new(28, |i: int| 0u8),
        r@ == session_id(),
{
    let mut sid: [u8; 32] = [0u8;32];
    sid[0] = 76;
    sid[1] = 51;
    sid[2] = 73;
    sid[3] = 80;
    assert(sid@ =~= seq![76u8, 51, 73, 80] + Seq::new(28, |i: int| 0u8));
    sid
}

/// The master key: each byte is its place, mixed and moved.
pub fn l3ip_master_key() -> (r: [u8; 48])
    ensures
        r@ == Seq::new(48, |i: int| ((i as u8) ^ 0x5a).wrapping_add(0x11)),
        r@ == master_key(),
{
    let mut key: [u8; 48] = [0u8;48];
    for i in 0..48
        invariant
            key@.len() == 48,
            forall|j: int| 0 <= j < i ==> key@[j] == ((j as u8) ^ 0x5a).wrapping_add(0x11),
    {
        let k: usize = i;
        key[k] = ((k as u8) ^ 0x5a).wrapping_add(0x11);
    }
    assert(key@ =~= Seq::new(48, |i: int| ((i as u8) ^ 0x5a).wrapping_add(0x11)));
    key
}

/// The calls that make a session and hand it to a connection, in their order.
#[derive(Debug, Clone, Copy, PartialEq, Eq, Structural)]
pub enum SessionCall {
    Create,
    SetProtocolVersion,
    SetMasterKey,
    SetId,
    Attach,
}

/// What to do once a call has come back.
#[derive(Debug)]
pub struct SessionStep {
    /// Whether the session has to be freed now.
    pub free: bool,
    /// What follows.
    pub next: SessionNext,
}

/// What follows a call.
#[derive(Debug)]
pub enum SessionNext {
    Call(SessionCall),
    Done,
    Failed(EcError),
}

impl SessionCall {
    /// The call that follows a successful one.
    pub open spec fn successor(self) -> Option<SessionCall> {
        match self {
            SessionCall::Create => Some(SessionCall::SetProtocolVersion),
            SessionCall::SetProtocolVersion => Some(SessionCall::SetMasterKey),
            SessionCall::SetMasterKey => Some(SessionCall::SetId),
            SessionCall::SetId => Some(SessionCall::Attach),
            SessionCall::Attach => None,
        }
    }

    /// What is said of a failed call.
    pub open spec fn complaint(self) -> Seq<char> {
        match self {
            SessionCall::Create => "create SSL_SESSION failed: "@,
            SessionCall::SetProtocolVersion => "SSL_SESSION_set_protocol_version failed: "@,
            SessionCall::SetMasterKey => "SSL_SESSION_set1_master_key failed: "@,
            SessionCall::SetId => "SSL_SESSION_set1_id failed: "@,
            SessionCall::Attach => "SSL_set_session failed: "@,
        }
    }

    fn blame(self) -> (r: &'static str)
        ensures
            r@ == self.complaint(),
    {
        match self {
            SessionCall::Create => "create SSL_SESSION failed: ",
            SessionCall::SetProtocolVersion => "SSL_SESSION_set_protocol_version failed: ",
            SessionCall::SetMasterKey => "SSL_SESSION_set1_master_key failed: ",
            SessionCall::SetId => "SSL_SESSION_set1_id failed: ",
            SessionCall::Attach => "SSL_set_session failed: ",
        }
    }
}

/// The session has to be freed once the call has come back: after the last call, and after
/// any failure of a call that had a session to work on.
pub open spec fn frees(call: SessionCall, success: bool) -> bool {
    call == SessionCall::Attach || (!success && call != SessionCall::Create)
}

/// Takes the outcome of a call: `success` says how it went, `errors` is what the TLS library
/// says of a failure.
pub fn apply_l3ip_session_id(call: SessionCall, success: bool, errors: &str) -> (r: SessionStep)
    ensures
        r.free == frees(call, success),
        if !success {
            r.next matches SessionNext::Failed(e) && e@ == EcErrorView::Runtime(
                call.complaint() + errors@,
            )
        } else {
            match call.successor() {
                Some(next) => r.next == SessionNext::Call(next),
                None => r.next is Done,
            }
        },
{
    if !success {
        let free = match call {
            SessionCall::Create => false,
            _ => true,
        };
        let why = call.blame().to_owned().concat(errors);
        return SessionStep { free, next: SessionNext::Failed(EcError::Runtime(why)) };
    }
    match call {
        SessionCall::Create => SessionStep {
            free: false,
            next: SessionNext::Call(SessionCall::SetProtocolVersion),
        },
        SessionCall::SetProtocolVersion => SessionStep {
            free: false,
            next: SessionNext::Call(SessionCall::SetMasterKey),
        },
        SessionCall::SetMasterKey => SessionStep {
            free: false,
            next: SessionNext::Call(SessionCall::SetId),
        },
        SessionCall::SetId => SessionStep {
            free: false,
            next: SessionNext::Call(SessionCall::Attach),
        },
        SessionCall::Attach => SessionStep { free: true, next: SessionNext::Done },
    }
}

/// How often the session is freed in a run that begins with the given call, if the calls go
/// as given.
pub open spec fn frees_in_run(call: SessionCall, outcomes: Seq<bool>) -> int
    decreases outcomes.len(),
{
    if outcomes.len() == 0 {
        0
    } else {
        let now: int = if frees(call, outcomes[0]) {
            1
        } else {
            0
        };
        match call.successor() {
            Some(next) => if outcomes[0] {
                now + frees_in_run(next, outcomes.skip(1))
            } else {
                now
            },
            None => now,
        }
    }
}

/// However the calls go, a session that was made is freed exactly once, and one that was not
/// made is never freed.
pub proof fn law_session_is_freed_once(outcomes: Seq<bool>)
    requires
        outcomes.len() == 5,
    ensures
        frees_in_run(SessionCall::Create, outcomes) == if outcomes[0] {
            1int
        } else {
            0int
        },
{
    reveal_with_fuel(frees_in_run, 6);
    let a = outcomes.skip(1);
    let b = a.skip(1);
    let c = b.skip(1);
    let d = c.skip(1);
    assert(a[0] == outcomes[1] && b[0] == outcomes[2] && c[0] == outcomes[3] && d[0]
        == outcomes[4]);
}

/// The session id is 32 bytes that begin with the letters of the protocol and hold nothing else,
/// and the master key is 48 bytes from each of which its place can be told.
pub proof fn law_session_is_the_one_expected(i: int)
    requires
        0 <= i < 48,
    ensures
        session_id().len() == 32,
        session_id().take(4) == vstd::utf8::encode_utf8("L3IP"@),
        4 <= i < 32 ==> session_id()[i] == 0,
        master_key().len() == 48,
        (master_key()[i].wrapping_sub(17)) ^ 90 == i,
{
    reveal_strlit("L3IP");
    vstd::utf8::is_ascii_chars_encode_utf8("L3IP"@);
    assert(session_id().take(4) =~= vstd::utf8::encode_utf8("L3IP"@));
    let place = i as u8;
    let mixed = place ^ 0x5a;
    let moved = mixed.wrapping_add(0x11);
    assert(moved.wrapping_sub(17) == mixed);
    assert(mixed ^ 90 == place) by (bit_vector)
        requires
            mixed == place ^ 0x5a,
    ;
}

/// The calls come in this order, each after the one before it has succeeded, and the last is the
/// one that hands the session to the connection.
pub proof fn law_session_calls_come_in_order()
    ensures
        SessionCall::Create.successor() == Some(SessionCall::SetProtocolVersion),
        SessionCall::SetProtocolVersion.successor() == Some(SessionCall::SetMasterKey),
        SessionCall::SetMasterKey.successor() == Some(SessionCall::SetId),
        SessionCall::SetId.successor() == Some(SessionCall::Attach),
        SessionCall::Attach.successor() is None,
{
}

} // verus!
