//! The failures the store can report to its caller.

use vstd::prelude::*;

verus! {

/// Why a store operation failed.
///
/// `Parse` covers text that is not a valid value as well as a stored value
/// whose shape does not fit its domain's transformation. `MissingDomain`
/// reports a set of loaded values that does not line up with the registry: a
/// startup-time invariant violation. I/O failures never arise here — reading
/// and writing the domain files is the hosting application's part, and it
/// reports them itself.
#[derive(Clone, Copy, Debug, PartialEq, Eq, Structural)]
pub enum StoreError {
    Parse,
    MissingDomain,
}

} // verus!
