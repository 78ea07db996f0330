//! How calls on a handle are answered before they reach the decoder behind it: null pointers,
//! invalid arguments, and a decoder that panicked.

use crate::stream::valid_selection;
use crate::types::{Status, ERR_INVALID_ARGUMENT, ERR_NOT_READY, ERR_NULL, ERR_PANIC, OK};
use vstd::prelude::*;

verus! {

/// The answer to a call, if it does not reach the decoder: one without a handle, or on a handle
/// that a panic poisoned, unless the call is the one that clears it.
pub fn entry_status(has_handle: bool, poisoned: bool, allow_poisoned: bool) -> (r: Option<Status>)
    ensures
        r == (if !has_handle {
            Some(ERR_NULL)
        } else if poisoned && !allow_poisoned {
            Some(ERR_PANIC)
        } else {
            None
        }),
{
    if !has_handle {
        Some(ERR_NULL)
    } else if poisoned && !allow_poisoned {
        Some(ERR_PANIC)
    } else {
        None
    }
}

/// The answer to a call that selects a presentation, if its argument is invalid. A missing
/// handle is the graver fault.
pub fn selection_status(has_handle: bool, presentation: i32) -> (r: Option<Status>)
    ensures
        r == (if -2 <= presentation <= 3 {
            None
        } else if has_handle {
            Some(ERR_INVALID_ARGUMENT)
        } else {
            Some(ERR_NULL)
        }),
{
    if valid_selection(presentation) {
        None
    } else if has_handle {
        Some(ERR_INVALID_ARGUMENT)
    } else {
        Some(ERR_NULL)
    }
}

/// The answer to a push that hands over nothing, or no bytes where it claims some.
pub fn push_status(has_handle: bool, has_data: bool, size: usize) -> (r: Option<Status>)
    ensures
        r == (if size == 0 {
            Some(
                if has_handle {
                    OK
                } else {
                    ERR_NULL
                },
            )
        } else if !has_data {
            Some(ERR_NULL)
        } else {
            None
        }),
{
    if size == 0 {
        Some(
            if has_handle {
                OK
            } else {
                ERR_NULL
            },
        )
    } else if !has_data {
        Some(ERR_NULL)
    } else {
        None
    }
}

/// The answer to a call that hands its result to the caller, if it has no handle or nowhere to
/// write to. Whether a poisoned handle hinders it is for `entry_status` to say; it does not where
/// nothing is changed.
pub fn query_status(has_handle: bool, has_out: bool) -> (r: Option<Status>)
    ensures
        r == (if has_handle && has_out {
            None
        } else {
            Some(ERR_NULL)
        }),
{
    if has_handle && has_out {
        None
    } else {
        Some(ERR_NULL)
    }
}

/// The answer to a query that may find nothing yet.
pub fn ready_status(found: bool) -> (r: Status)
    ensures
        r == (if found {
            OK
        } else {
            ERR_NOT_READY
        }),
{
    if found {
        OK
    } else {
        ERR_NOT_READY
    }
}

} // verus!
