//! The remote delta helper's handling of a request.
use vstd::prelude::*;

verus! {

use crate::delta::protocol::HelperRequest;

/// The only helper protocol version this helper speaks.
pub const HELPER_PROTOCOL_VERSION: u32 = 1;

/// Why the helper refused a request.
#[derive(Debug, Clone, Copy, PartialEq, Eq, Structural)]
pub enum HelperError {
    /// The request names a protocol version other than 1.
    UnsupportedProtocolVersion(u32),
}

/// Accepts a request whose protocol version is the helper's own and refuses
/// any other, naming the version it got.
pub fn check_request(req: &HelperRequest) -> (r: Result<(), HelperError>)
    ensures
        req.protocol_version == 1 <==> r is Ok,
        r matches Err(e) ==> e == HelperError::UnsupportedProtocolVersion(req.protocol_version),
{
    if req.protocol_version != HELPER_PROTOCOL_VERSION {
        return Err(HelperError::UnsupportedProtocolVersion(req.protocol_version));
    }
    Ok(())
}

} // verus!
