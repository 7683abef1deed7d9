//! CDI policy resolution for platforms without CDI.

use crate::cdi::{CdiContext, CdiDerivedRequirements, CdiError};
use vstd::prelude::*;

verus! {

/// Refuses every request.
pub fn resolve_cdi_context(_context: &CdiContext, _writable_file_allowlist: &[String]) -> (result:
    Result<CdiDerivedRequirements, CdiError>)
    ensures
        result == Err::<CdiDerivedRequirements, CdiError>(CdiError::UnsupportedPlatform),
{
    Err(CdiError::UnsupportedPlatform)
}

} // verus!
