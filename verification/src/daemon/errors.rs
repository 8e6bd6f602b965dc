//! Errors as the daemon's clients see them.

use vstd::prelude::*;
use vstd::string::*;

use crate::error::{ErrorView, RevenantError};
use crate::text::cat2;

verus! {

/// An application-level error of the daemon.
#[derive(Debug)]
pub enum DaemonError {
    /// The caller was denied.
    NotAuthorized(String),
    /// Strain or snapshot not found in the requested scope.
    NotFound(String),
    /// An argument is malformed.
    InvalidArgument(String),
    /// A check before a restore reported errors.
    PreflightBlocked(String),
    /// Another write is under way.
    Conflict(String),
    /// The filesystem cannot be served.
    BackendUnavailable(String),
    /// Any other failure.
    Internal(String),
}

/// An error with its text.
pub enum DaemonErrorView {
    NotAuthorized(Seq<char>),
    NotFound(Seq<char>),
    InvalidArgument(Seq<char>),
    PreflightBlocked(Seq<char>),
    Conflict(Seq<char>),
    BackendUnavailable(Seq<char>),
    Internal(Seq<char>),
}

impl View for DaemonError {
    type V = DaemonErrorView;

    open spec fn view(&self) -> DaemonErrorView {
        match self {
            DaemonError::NotAuthorized(m) => DaemonErrorView::NotAuthorized(m@),
            DaemonError::NotFound(m) => DaemonErrorView::NotFound(m@),
            DaemonError::InvalidArgument(m) => DaemonErrorView::InvalidArgument(m@),
            DaemonError::PreflightBlocked(m) => DaemonErrorView::PreflightBlocked(m@),
            DaemonError::Conflict(m) => DaemonErrorView::Conflict(m@),
            DaemonError::BackendUnavailable(m) => DaemonErrorView::BackendUnavailable(m@),
            DaemonError::Internal(m) => DaemonErrorView::Internal(m@),
        }
    }
}

/// A result whose error is a [`DaemonError`].
pub type DaemonResult<T> = core::result::Result<T, DaemonError>;

/// The name of an error on the bus.
pub open spec fn wire_name(e: DaemonErrorView) -> Seq<char> {
    match e {
        DaemonErrorView::NotAuthorized(_) => "org.revenant.Error.NotAuthorized"@,
        DaemonErrorView::NotFound(_) => "org.revenant.Error.NotFound"@,
        DaemonErrorView::InvalidArgument(_) => "org.revenant.Error.InvalidArgument"@,
        DaemonErrorView::PreflightBlocked(_) => "org.revenant.Error.PreflightBlocked"@,
        DaemonErrorView::Conflict(_) => "org.revenant.Error.Conflict"@,
        DaemonErrorView::BackendUnavailable(_) => "org.revenant.Error.BackendUnavailable"@,
        DaemonErrorView::Internal(_) => "org.revenant.Error.Internal"@,
    }
}

impl DaemonError {
    /// The name of the error on the bus.
    pub fn name(&self) -> (r: &'static str)
        ensures
            r@ == wire_name(self@),
    {
        match self {
            DaemonError::NotAuthorized(_) => "org.revenant.Error.NotAuthorized",
            DaemonError::NotFound(_) => "org.revenant.Error.NotFound",
            DaemonError::InvalidArgument(_) => "org.revenant.Error.InvalidArgument",
            DaemonError::PreflightBlocked(_) => "org.revenant.Error.PreflightBlocked",
            DaemonError::Conflict(_) => "org.revenant.Error.Conflict",
            DaemonError::BackendUnavailable(_) => "org.revenant.Error.BackendUnavailable",
            DaemonError::Internal(_) => "org.revenant.Error.Internal",
        }
    }
}

/// The error that a client sees for an error of the library.
pub open spec fn mapped(e: ErrorView) -> DaemonErrorView {
    match e {
        ErrorView::SnapshotNotFound(_) => DaemonErrorView::NotFound(e.text()),
        ErrorView::SubvolumeNotFound(_) => DaemonErrorView::NotFound(e.text()),
        ErrorView::Config(_) => DaemonErrorView::InvalidArgument(e.text()),
        ErrorView::NotBtrfs { path: _ } => DaemonErrorView::BackendUnavailable(e.text()),
        ErrorView::Mount(_) => DaemonErrorView::BackendUnavailable(e.text()),
        ErrorView::NotRoot => DaemonErrorView::NotAuthorized(e.text()),
        _ => DaemonErrorView::Internal(e.text()),
    }
}

/// Map an error of the library onto the closest error of the daemon.
pub fn map_core_error(err: &RevenantError) -> (r: DaemonError)
    ensures
        r@ == mapped(err@),
{
    let m = err.message();
    match err {
        RevenantError::SnapshotNotFound(_) => DaemonError::NotFound(m),
        RevenantError::SubvolumeNotFound(_) => DaemonError::NotFound(m),
        RevenantError::Config(_) => DaemonError::InvalidArgument(m),
        RevenantError::NotBtrfs { path: _ } => DaemonError::BackendUnavailable(m),
        RevenantError::Mount(_) => DaemonError::BackendUnavailable(m),
        RevenantError::NotRoot => DaemonError::NotAuthorized(m),
        _ => DaemonError::Internal(m),
    }
}

/// What the answer of the authority means for a caller that asked for
/// `action`. An authentication that was started and not completed is a denial.
pub fn authorize(is_authorized: bool, action: &str) -> (r: DaemonResult<()>)
    ensures
        match r {
            Ok(_) => is_authorized,
            Err(e) => !is_authorized && e@ == DaemonErrorView::NotAuthorized(
                "not authorized for action "@ + action@,
            ),
        },
{
    if is_authorized {
        Ok(())
    } else {
        Err(DaemonError::NotAuthorized(cat2("not authorized for action ", action)))
    }
}

} // verus!
