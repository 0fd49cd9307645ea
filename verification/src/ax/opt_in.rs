//! Asking an application to publish its accessibility tree.
//!
//! Native applications always publish. Those built on Chromium keep their tree
//! off until asked, and present as a window without contents. They are asked by
//! writing [`Names::manual_accessibility`](crate::ax::names::Names), which has no
//! other effect; the older attribute that a screen reader sets makes some
//! applications move their windows, and is never written.

use crate::ax::attr::AxError;
use crate::ax::attr::Status;
use vstd::prelude::*;

verus! {

/// What an application did with the request.
#[derive(Debug, Clone, Copy, PartialEq, Eq, Structural)]
pub enum OptIn {
    /// It accepted. Its contents are to be expected on the next walk.
    Accepted,
    /// It has no such attribute: the ordinary answer of a native application.
    NotApplicable,
    /// The write itself failed.
    Failed(AxError),
}

/// What an application did with the request, by the outcome of the write.
pub fn request(status: Status) -> (outcome: OptIn)
    ensures
        outcome == match status {
            Status::Success => OptIn::Accepted,
            Status::AttributeUnsupported | Status::IllegalArgument => OptIn::NotApplicable,
            other => OptIn::Failed(AxError(other)),
        },
{
    match status {
        Status::Success => OptIn::Accepted,
        Status::AttributeUnsupported | Status::IllegalArgument => OptIn::NotApplicable,
        other => OptIn::Failed(AxError(other)),
    }
}

/// Whether an application answers the attribute at all, by what reading it gave.
/// That tells an application built on Chromium from a native one, and no more: the
/// attribute reads as unset even after a request that was accepted.
pub fn answers_opt_in(read: Result<Option<bool>, AxError>) -> (answer: Option<bool>)
    ensures
        answer == match read {
            Ok(value) => value,
            Err(_) => None,
        },
{
    match read {
        Ok(value) => value,
        Err(_) => None,
    }
}

} // verus!
