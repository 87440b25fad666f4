//! Window lifecycle bookkeeping for a multi-window desktop shell: the
//! registry of live windows, their parent/child index, persisted geometry,
//! startup restore planning, teardown ordering and brokered messages.

pub mod text;
pub mod error;
pub mod table;
pub mod descriptor;
pub mod store;
pub mod registry;
pub mod commands;
pub mod events;
pub mod lifecycle;
pub mod message;

pub use commands::{
    OpenWindowRequest, RestorePlan, RestoreSkipReason, RestoreSkippedWindow, RestoreWindowsResult,
};
pub use descriptor::{WindowDescriptor, WindowGeometry};
pub use error::WindowSystemErrorKind;
pub use events::{RegistryChangeKind, RegistryChangedEvent};
pub use lifecycle::{CloseStep, WindowCloseTree};
pub use message::{
    BroadcastWindowMessageRequest, SendWindowMessageRequest, WindowMessageDispatchResult,
    WindowMessageEnvelope, WindowMessageKind, WindowMessageScope,
};
pub use registry::{ClosingGuard, WindowRegistry, WindowReservation};
pub use store::WindowStateStore;
