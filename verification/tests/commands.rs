use window_system::commands::{
    cleanup_stale_restore_windows, normalize_open_window_request, normalize_optional_text,
    normalize_required_text, normalize_window_url, open_window_descriptor, plan_restore_windows,
    restore_request, stale_restore_labels,
};
use window_system::{
    OpenWindowRequest, RestorePlan, RestoreSkipReason, RestoreSkippedWindow, WindowDescriptor,
    WindowGeometry, WindowRegistry, WindowStateStore,
};

fn descriptor(label: &str, parent: Option<&str>) -> WindowDescriptor {
    WindowDescriptor {
        label: label.into(),
        url: format!("{label}.html"),
        parent: parent.map(str::to_string),
        title: None,
        geometry: None,
    }
}

fn geometry(x: f64, y: f64, width: f64, height: f64) -> WindowGeometry {
    WindowGeometry {
        x: x.to_bits(),
        y: y.to_bits(),
        width: width.to_bits(),
        height: height.to_bits(),
    }
}

fn labels(list: &[WindowDescriptor]) -> Vec<&str> {
    list.iter().map(|descriptor| descriptor.label.as_str()).collect()
}

#[test]
fn restore_plan_is_parent_first() {
    let plan = plan_restore_windows(
        vec![descriptor("child", Some("main")), descriptor("main", None)],
        Vec::new(),
    );

    assert_eq!(labels(&plan.restore_order), vec!["main", "child"]);
    assert!(plan.already_alive.is_empty());
    assert!(plan.skipped.is_empty());
}

#[test]
fn restore_plan_marks_existing_windows_as_alive() {
    let live = vec!["main".to_string()];

    let plan = plan_restore_windows(
        vec![descriptor("main", None), descriptor("child", Some("main"))],
        live,
    );

    assert_eq!(plan.already_alive, vec!["main".to_string()]);
    assert_eq!(labels(&plan.restore_order), vec!["child"]);
}

#[test]
fn restore_plan_skips_unresolved_children() {
    let plan = plan_restore_windows(vec![descriptor("child", Some("missing"))], Vec::new());

    assert!(plan.restore_order.is_empty());
    assert!(plan.already_alive.is_empty());
    assert_eq!(plan.skipped.len(), 1);
    assert_eq!(plan.skipped[0].label, "child");
}

#[test]
fn cleanup_skipped_restore_windows_removes_persisted_state() {
    let mut store = WindowStateStore::new();
    let geometry = geometry(10.0, 20.0, 30.0, 40.0);

    store.remember("child", geometry);
    store.remember_window(WindowDescriptor {
        label: "child".into(),
        url: "child.html".into(),
        parent: Some("missing".into()),
        title: Some("Child".into()),
        geometry: Some(geometry),
    });
    let mut registry = WindowRegistry::new(store);

    let plan = RestorePlan {
        restore_order: Vec::new(),
        already_alive: Vec::new(),
        already_alive_descriptors: Vec::new(),
        skipped: vec![RestoreSkippedWindow {
            label: "child".into(),
            parent: Some("missing".into()),
            reason: RestoreSkipReason::MissingParent,
        }],
        live_labels: Vec::new(),
    };

    assert!(cleanup_stale_restore_windows(&mut registry, &plan));

    assert!(registry
        .restore_tracked_windows()
        .iter()
        .all(|window| window.label != "child"));
    assert_eq!(registry.restore_geometry("child"), None);

    let persisted = registry.state_store();
    assert!(persisted
        .restore_tracked_windows()
        .iter()
        .all(|window| window.label != "child"));
    assert_eq!(persisted.restore("child"), None);
}

#[test]
fn cleanup_stale_restore_windows_removes_orphaned_alive_child() {
    let mut store = WindowStateStore::new();
    let descriptor = WindowDescriptor {
        label: "child".into(),
        url: "child.html".into(),
        parent: Some("missing".into()),
        title: Some("Child".into()),
        geometry: None,
    };

    store.remember_window(descriptor.clone());
    let mut registry = WindowRegistry::new(store);

    let live_labels = vec!["child".to_string()];

    let plan = RestorePlan {
        restore_order: Vec::new(),
        already_alive: vec!["child".into()],
        already_alive_descriptors: vec![descriptor],
        skipped: Vec::new(),
        live_labels,
    };

    assert!(cleanup_stale_restore_windows(&mut registry, &plan));

    assert!(registry.state_store().restore_tracked_windows().is_empty());
}

#[test]
fn normalize_open_window_request_trims_and_restores_geometry() {
    let mut registry = WindowRegistry::new(WindowStateStore::new());
    let geometry = geometry(10.0, 20.0, 300.0, 200.0);

    registry.insert(descriptor("main", None));
    registry.remember_geometry("main", geometry);

    let normalized = normalize_open_window_request(
        &registry,
        OpenWindowRequest {
            label: " main ".into(),
            url: Some(" child.html ".into()),
            parent: Some(" root ".into()),
            title: Some(" Child Window ".into()),
            geometry: None,
        },
    )
    .expect("request should normalize");

    assert_eq!(normalized.label, "main");
    assert_eq!(normalized.url, "child.html");
    assert_eq!(normalized.parent, Some("root".into()));
    assert_eq!(normalized.title, Some("Child Window".into()));
    assert_eq!(normalized.geometry, Some(geometry));
}

#[test]
fn normalize_open_window_request_rejects_blank_label() {
    let registry = WindowRegistry::new(WindowStateStore::new());

    let error = normalize_open_window_request(
        &registry,
        OpenWindowRequest {
            label: "   ".into(),
            url: None,
            parent: None,
            title: None,
            geometry: None,
        },
    )
    .expect_err("blank label should be rejected");

    assert!(error.contains("invalid-label"));
    assert!(error.contains("label is required"));
}
