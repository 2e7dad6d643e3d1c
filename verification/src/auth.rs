//! Logging in.

use vstd::prelude::*;
use crate::config::AppConfig;
use crate::error::{EcError, EcErrorView, EcResult};

verus! {

/// Logging in is not implemented: it gives no session id.
pub fn login(_config: &AppConfig) -> (r: EcResult<String>)
    ensures
        r matches Err(e) && e@ == EcErrorView::NotImplemented("auth.login"@),
{
    Err(EcError::NotImplemented("auth.login"))
}

} // verus!
