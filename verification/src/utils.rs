//! Error kinds and filter-argument validation.
//!
//! Vendor and product identifiers arrive from the host runtime widened
//! to 32 bits; USB assigns them 16 bits. An identifier outside that
//! range is rejected at call time, never deferred.

use vstd::prelude::*;

verus! {

/// The error kinds the library surfaces.
///
/// A listener whose callback target became unreachable is dropped
/// silently by the adaptation layer and never surfaces here.
#[derive(Debug, Clone, Copy, PartialEq, Eq, Structural)]
pub enum WatchError {
    /// The external bus-scan primitive failed.
    Enumeration,
    /// A supplied vendor or product identifier does not fit the 16-bit
    /// range USB assigns.
    InvalidFilter,
    /// The event name given at listener registration is not known.
    UnknownMethod,
}

/// Whether an optional widened identifier fits the 16-bit range.
pub open spec fn filter_in_range(value: Option<u32>) -> bool {
    match value {
        Some(x) => x <= u16::MAX as u32,
        None => true,
    }
}

/// The 16-bit filter an in-range widened identifier denotes.
pub open spec fn narrowed_filter(value: Option<u32>) -> Option<u16> {
    match value {
        Some(x) => Some(x as u16),
        None => None,
    }
}

/// Narrows an optional widened identifier to the 16-bit range, and
/// rejects one that does not fit.
pub fn get_optional_u16(value: Option<u32>) -> (r: Result<Option<u16>, WatchError>)
    ensures
        filter_in_range(value) ==> r == Ok::<Option<u16>, WatchError>(narrowed_filter(value)),
        !filter_in_range(value) ==> r == Err::<Option<u16>, WatchError>(WatchError::InvalidFilter),
{
    match value {
        None => Ok(None),
        Some(x) => {
            if x <= 0xFFFF {
                Ok(Some(x as u16))
            } else {
                Err(WatchError::InvalidFilter)
            }
        },
    }
}

} // verus!
