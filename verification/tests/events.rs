use window_system::events::build_registry_changed_event;
use window_system::{
    RegistryChangeKind, WindowDescriptor, WindowGeometry, WindowRegistry, WindowStateStore,
};

#[test]
fn build_registry_changed_event_returns_sorted_windows() {
    let mut registry = WindowRegistry::new(WindowStateStore::new());
    registry.insert(WindowDescriptor {
        label: "beta".into(),
        url: "beta.html".into(),
        parent: None,
        title: None,
        geometry: Some(WindowGeometry {
            x: 1.0f64.to_bits(),
            y: 2.0f64.to_bits(),
            width: 3.0f64.to_bits(),
            height: 4.0f64.to_bits(),
        }),
    });
    registry.insert(WindowDescriptor {
        label: "alpha".into(),
        url: "alpha.html".into(),
        parent: None,
        title: None,
        geometry: None,
    });

    let event = build_registry_changed_event(&registry, RegistryChangeKind::Opened, "alpha");

    assert_eq!(event.kind, RegistryChangeKind::Opened);
    assert_eq!(event.label, "alpha");
    assert_eq!(event.windows[0].label, "alpha");
    assert_eq!(event.windows[1].label, "beta");
}

#[test]
fn registry_changed_event_carries_kind_label_and_windows() {
    let mut registry = WindowRegistry::new(WindowStateStore::new());
    registry.insert(WindowDescriptor {
        label: "main".into(),
        url: "index.html".into(),
        parent: None,
        title: Some("Main".into()),
        geometry: None,
    });

    let event =
        build_registry_changed_event(&registry, RegistryChangeKind::GeometryChanged, "main");

    assert_eq!(event.kind, RegistryChangeKind::GeometryChanged);
    assert_eq!(event.label, "main");
    assert_eq!(event.windows.len(), 1);
    assert_eq!(event.windows[0].title, Some("Main".to_string()));
}
