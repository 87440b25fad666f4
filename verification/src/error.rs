//! Stable, machine-readable error codes carried at the front of error text.

use vstd::prelude::*;

verus! {

/// The kinds of failure the window system reports.
#[derive(Clone, Copy, Debug, PartialEq, Eq, Structural)]
pub enum WindowSystemErrorKind {
    InvalidLabel,
    WindowAlreadyExists,
    WindowCannotBeItsOwnParent,
    ParentWindowNotFound,
    WindowNotFound,
    WindowReservationNotFound,
    WindowRegistryLockPoisoned,
    WindowStateStoreLockPoisoned,
}

impl WindowSystemErrorKind {
    /// The code of a kind, as it appears in error text.
    pub open spec fn code_text(self) -> Seq<char> {
        match self {
            WindowSystemErrorKind::InvalidLabel => "invalid-label"@,
            WindowSystemErrorKind::WindowAlreadyExists => "window-already-exists"@,
            WindowSystemErrorKind::WindowCannotBeItsOwnParent => "window-cannot-be-its-own-parent"@,
            WindowSystemErrorKind::ParentWindowNotFound => "parent-window-not-found"@,
            WindowSystemErrorKind::WindowNotFound => "window-not-found"@,
            WindowSystemErrorKind::WindowReservationNotFound => "window-reservation-not-found"@,
            WindowSystemErrorKind::WindowRegistryLockPoisoned => "window-registry-lock-poisoned"@,
            WindowSystemErrorKind::WindowStateStoreLockPoisoned => "window-state-store-lock-poisoned"@,
        }
    }

    pub fn code(&self) -> (r: &'static str)
        ensures
            r@ == self.code_text(),
    {
        match self {
            WindowSystemErrorKind::InvalidLabel => "invalid-label",
            WindowSystemErrorKind::WindowAlreadyExists => "window-already-exists",
            WindowSystemErrorKind::WindowCannotBeItsOwnParent => "window-cannot-be-its-own-parent",
            WindowSystemErrorKind::ParentWindowNotFound => "parent-window-not-found",
            WindowSystemErrorKind::WindowNotFound => "window-not-found",
            WindowSystemErrorKind::WindowReservationNotFound => "window-reservation-not-found",
            WindowSystemErrorKind::WindowRegistryLockPoisoned => "window-registry-lock-poisoned",
            WindowSystemErrorKind::WindowStateStoreLockPoisoned => "window-state-store-lock-poisoned",
        }
    }
}

/// The error text for `kind` with the human-readable `message`: the code,
/// a colon and a space, then the message.
pub open spec fn error_text(kind: WindowSystemErrorKind, message: Seq<char>) -> Seq<char> {
    kind.code_text() + ": "@ + message
}

/// Builds the error text for `kind` and `message`.
pub fn window_system_error(kind: WindowSystemErrorKind, message: &str) -> (r: String)
    ensures
        r@ == error_text(kind, message@),
{
    let mut text = String::from_str(kind.code());
    text.append(": ");
    text.append(message);
    text
}


/// The error for a label that names no live window.
pub fn window_not_found_error(label: &str) -> (r: String)
    ensures
        r@ == error_text(WindowSystemErrorKind::WindowNotFound, "window not found: "@ + label@),
{
    let mut message = String::from_str("window not found: ");
    message.append(label);
    window_system_error(WindowSystemErrorKind::WindowNotFound, message.as_str())
}

} // verus!
