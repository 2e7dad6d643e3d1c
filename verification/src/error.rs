//! Errors and their short wording.

use vstd::prelude::*;
use crate::text;

verus! {

/// The result of what can fail in this crate.
pub type EcResult<T> = Result<T, EcError>;

/// What went wrong.
#[derive(Debug)]
pub enum EcError {
    /// A setting is missing or malformed.
    InvalidConfig(&'static str),
    /// Something that this client does not do.
    Unsupported(&'static str),
    /// Something that is not implemented.
    NotImplemented(&'static str),
    /// A failure while running, in words.
    Runtime(String),
}

/// An error as plain values.
pub ghost enum EcErrorView {
    InvalidConfig(Seq<char>),
    Unsupported(Seq<char>),
    NotImplemented(Seq<char>),
    Runtime(Seq<char>),
}

impl View for EcError {
    type V = EcErrorView;

    open spec fn view(&self) -> EcErrorView {
        match self {
            EcError::InvalidConfig(m) => EcErrorView::InvalidConfig(m@),
            EcError::Unsupported(m) => EcErrorView::Unsupported(m@),
            EcError::NotImplemented(m) => EcErrorView::NotImplemented(m@),
            EcError::Runtime(m) => EcErrorView::Runtime(m@),
        }
    }
}

/// A result as plain values.
pub open spec fn shown<T: View>(r: EcResult<T>) -> Result<T::V, EcErrorView> {
    match r {
        Ok(v) => Ok(v@),
        Err(e) => Err(e@),
    }
}

/// What the wording of a runtime failure begins with.
pub const RUNTIME_PREFIX: &'static str = "runtime failure: ";

impl EcErrorView {
    /// The error in words.
    pub open spec fn text(self) -> Seq<char> {
        match self {
            EcErrorView::InvalidConfig(m) => "invalid config: "@ + m,
            EcErrorView::Unsupported(m) => "unsupported: "@ + m,
            EcErrorView::NotImplemented(m) => "not implemented: "@ + m,
            EcErrorView::Runtime(m) => RUNTIME_PREFIX@ + m,
        }
    }
}

impl EcError {
    /// The error in words.
    pub fn to_string(&self) -> (r: String)
        ensures
            r@ == self@.text(),
    {
        match self {
            EcError::InvalidConfig(m) => "invalid config: ".to_owned().concat(m),
            EcError::Unsupported(m) => "unsupported: ".to_owned().concat(m),
            EcError::NotImplemented(m) => "not implemented: ".to_owned().concat(m),
            EcError::Runtime(m) => RUNTIME_PREFIX.to_owned().concat(m.as_str()),
        }
    }
}

/// `s` without the text `p`, as often as it stands in front.
pub open spec fn strip_repeated(s: Seq<char>, p: Seq<char>) -> Seq<char>
    decreases s.len(),
{
    if p.len() > 0 && p.is_prefix_of(s) {
        strip_repeated(s.skip(p.len() as int), p)
    } else {
        s
    }
}

/// A message without the prefixes of runtime failures.
pub open spec fn concise(s: Seq<char>) -> Seq<char> {
    strip_repeated(s, RUNTIME_PREFIX@)
}

/// An error in words, without the prefixes of runtime failures.
pub fn concise_error(err: &EcError) -> (r: String)
    ensures
        r@ == concise(err@.text()),
{
    concise_message(err.to_string())
}

/// A message without the prefixes of runtime failures.
pub fn concise_message(message: String) -> (r: String)
    ensures
        r@ == concise(message@),
{
    let cs = text::chars_of(message.as_str());
    let rest = strip_runtime_prefixes(cs.as_slice());
    text::text_of(rest)
}

fn strip_runtime_prefixes(message: &[char]) -> (r: &[char])
    ensures
        r@ == concise(message@),
    decreases message@.len(),
{
    let prefix = text::chars_of(RUNTIME_PREFIX);
    proof {
        reveal_strlit("runtime failure: ");
    }
    if text::starts_with(message, prefix.as_slice()) {
        strip_runtime_prefixes(text::skip(message, prefix.len()))
    } else {
        message
    }
}

/// A shortened message has no prefix left to strip.
pub proof fn law_concise_has_no_prefix(s: Seq<char>)
    ensures
        !RUNTIME_PREFIX@.is_prefix_of(concise(s)),
    decreases s.len(),
{
    reveal_strlit("runtime failure: ");
    if RUNTIME_PREFIX@.is_prefix_of(s) {
        law_concise_has_no_prefix(s.skip(RUNTIME_PREFIX@.len() as int));
    }
}

/// Shortening a message twice is shortening it once.
pub proof fn law_concise_is_idempotent(s: Seq<char>)
    ensures
        concise(concise(s)) == concise(s),
{
    law_concise_has_no_prefix(s);
}

/// However often a failure is wrapped as a runtime failure, its short wording stays that of
/// the failure inside.
pub proof fn law_concise_unwraps_runtime(inner: EcErrorView)
    ensures
        concise(EcErrorView::Runtime(inner.text()).text()) == concise(inner.text()),
{
    reveal_strlit("runtime failure: ");
    let wrapped = RUNTIME_PREFIX@ + inner.text();
    assert(RUNTIME_PREFIX@.is_prefix_of(wrapped));
    assert(wrapped.skip(RUNTIME_PREFIX@.len() as int) =~= inner.text());
}

/// A message that does not begin like a runtime failure is short already, and one that does is
/// as short as what stands behind the beginning.
pub proof fn law_concise_takes_off_the_beginning(s: Seq<char>)
    ensures
        concise("runtime failure: "@ + s) == concise(s),
        !"runtime failure: "@.is_prefix_of(s) ==> concise(s) == s,
        EcErrorView::Runtime(s).text() == "runtime failure: "@ + s,
        EcErrorView::InvalidConfig(s).text() == "invalid config: "@ + s,
{
    reveal_strlit("runtime failure: ");
    let wrapped = "runtime failure: "@ + s;
    assert("runtime failure: "@.is_prefix_of(wrapped)) by {
        assert(wrapped.take(17) =~= "runtime failure: "@);
    }
    assert(wrapped.skip(17) =~= s);
}

} // verus!
