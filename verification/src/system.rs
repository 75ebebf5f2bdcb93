//! OS-specific system compatibility utilities.
use vstd::prelude::*;

verus! {

/// Enable compatibility mode for non-standard platforms.
///
/// A hook for platforms on which the correct time zone cannot be obtained.
/// There is nothing to do on any supported platform.
pub fn enable_compatibility_mode() {
}

} // verus!
