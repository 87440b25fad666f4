//! Registry-change notifications.

use vstd::prelude::*;
use crate::descriptor::{WindowDescriptor, views_of};
use crate::registry::WindowRegistry;
use crate::store::lists_in_label_order;

verus! {

/// What happened to the registry.
#[derive(Clone, Copy, Debug, PartialEq, Eq, Structural)]
pub enum RegistryChangeKind {
    Opened,
    Closed,
    GeometryChanged,
}

/// A change notification: what happened, to which label, and the registry
/// as it now stands.
#[derive(Clone, Debug, PartialEq)]
pub struct RegistryChangedEvent {
    pub kind: RegistryChangeKind,
    pub label: String,
    pub windows: Vec<WindowDescriptor>,
}

/// The notification for `kind` on `label`, carrying every registered
/// window in label order.
pub fn build_registry_changed_event(registry: &WindowRegistry, kind: RegistryChangeKind, label: &str) -> (r:
    RegistryChangedEvent)
    requires
        registry.wf(),
    ensures
        r.kind == kind,
        r.label@ == label@,
        lists_in_label_order(views_of(r.windows@), registry.windows()),
{
    RegistryChangedEvent { kind, label: String::from_str(label), windows: registry.list() }
}

} // verus!
