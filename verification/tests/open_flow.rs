use window_system::commands::{
    open_window_descriptor, plan_restore_windows, restore_request, stale_restore_labels,
    OpenWindowFlow,
};
use window_system::{
    OpenWindowRequest, RestorePlan, RestoreSkipReason, RestoreSkippedWindow, WindowDescriptor,
    WindowGeometry, WindowRegistry, WindowStateStore,
};

fn request(label: &str, parent: Option<&str>) -> OpenWindowRequest {
    OpenWindowRequest {
        label: label.into(),
        url: None,
        parent: parent.map(str::to_string),
        title: None,
        geometry: None,
    }
}

fn window(label: &str, parent: Option<&str>) -> WindowDescriptor {
    WindowDescriptor {
        label: label.into(),
        url: format!("{label}.html"),
        parent: parent.map(str::to_string),
        title: None,
        geometry: None,
    }
}

#[test]
fn open_flow_registers_and_commits() {
    let mut registry = WindowRegistry::new(WindowStateStore::new());
    let mut flow = OpenWindowFlow::start(&mut registry, request(" main ", None)).expect("main opens");
    assert_eq!(flow.request().label, "main");
    assert_eq!(flow.request().url, "index.html");
    flow.window_built(false);

    let descriptor = flow
        .register(&mut registry, Some("Native Title".into()))
        .expect("reservation holds");

    assert!(registry.restore_tracked_windows().is_empty());
    assert_eq!(descriptor.title, Some("Native Title".to_string()));
    assert_eq!(registry.get("main"), Some(descriptor));
    assert!(registry.reserve_window("main", None).is_err());
}

#[test]
fn open_flow_abort_before_register_releases_label() {
    let mut registry = WindowRegistry::new(WindowStateStore::new());
    let mut flow = OpenWindowFlow::start(&mut registry, request("main", None)).expect("main opens");
    flow.window_built(false);

    assert!(flow.abort(&mut registry));
    assert!(registry.get("main").is_none());
    assert!(registry.reserve_window("main", None).is_ok());
}

#[test]
fn open_flow_abort_after_register_removes_window_but_spares_reused_one() {
    let mut registry = WindowRegistry::new(WindowStateStore::new());
    let mut flow = OpenWindowFlow::start(&mut registry, request("main", None)).expect("main opens");
    flow.window_built(true);
    flow.register(&mut registry, None).expect("reservation holds");

    assert!(!flow.abort(&mut registry));
    assert!(registry.get("main").is_none());
}

#[test]
fn open_flow_refuses_missing_parent_and_blank_label() {
    let mut registry = WindowRegistry::new(WindowStateStore::new());

    let error = OpenWindowFlow::start(&mut registry, request("child", Some("main")))
        .err()
        .expect("parent is missing");
    assert_eq!(error, "parent-window-not-found: parent window not found");

    let error = OpenWindowFlow::start(&mut registry, request("  ", None)).err().expect("blank");
    assert_eq!(error, "invalid-label: label is required");
}

#[test]
fn open_flow_refuses_duplicate_and_self_parent() {
    let mut registry = WindowRegistry::new(WindowStateStore::new());
    registry.insert(window("main", None));

    let error = OpenWindowFlow::start(&mut registry, request("main", None)).err().expect("exists");
    assert_eq!(error, "window-already-exists: window already exists");

    let error = OpenWindowFlow::start(&mut registry, request("solo", Some(" solo ")))
        .err()
        .expect("self parent");
    assert_eq!(error, "window-cannot-be-its-own-parent: window cannot be its own parent");
}

#[test]
fn insert_reserved_without_reservation_is_refused() {
    let mut registry = WindowRegistry::new(WindowStateStore::new());
    let error = registry.insert_reserved(window("main", None)).expect_err("nothing reserved");
    assert_eq!(error, "window-reservation-not-found: window reservation not found");
}

#[test]
fn reservation_ends_by_commit_state() {
    let mut registry = WindowRegistry::new(WindowStateStore::new());
    let reservation = registry.reserve_window("a", None).expect("a reserves");
    registry.end_reservation(reservation);
    assert!(registry.reserve_window("a", None).is_ok());

    let mut reservation = registry.reserve_window("b", None).expect("b reserves");
    registry.insert_reserved(window("b", None)).expect("b inserts");
    reservation.commit();
    registry.end_reservation(reservation);
    assert!(registry.get("b").is_some());
}

#[test]
fn open_descriptor_prefers_request_title() {
    let mut registry = WindowRegistry::new(WindowStateStore::new());
    let mut req = request("main", None);
    req.title = Some(" Requested ".into());
    let flow = OpenWindowFlow::start(&mut registry, req).expect("main opens");

    let descriptor = open_window_descriptor(flow.request(), Some("Native".into()));
    assert_eq!(descriptor.title, Some("Requested".to_string()));
}

#[test]
fn restore_request_reopens_descriptor_as_recorded() {
    let mut descriptor = window("child", Some("main"));
    descriptor.title = Some("Child".into());
    descriptor.geometry = Some(WindowGeometry { x: 1, y: 2, width: 3, height: 4 });

    let request = restore_request(&descriptor);

    assert_eq!(request.label, "child");
    assert_eq!(request.url, Some("child.html".to_string()));
    assert_eq!(request.parent, Some("main".to_string()));
    assert_eq!(request.title, Some("Child".to_string()));
    assert_eq!(request.geometry, descriptor.geometry);
}

#[test]
fn restore_plan_places_every_window_once() {
    let plan = plan_restore_windows(
        vec![
            window("grandchild", Some("child")),
            window("orphan", Some("missing")),
            window("child", Some("main")),
            window("main", None),
            window("main", None),
            window("alive", None),
        ],
        vec!["alive".to_string()],
    );

    let restored: Vec<&str> = plan.restore_order.iter().map(|w| w.label.as_str()).collect();
    assert_eq!(restored, vec!["main", "child", "grandchild"]);
    assert_eq!(plan.already_alive, vec!["main".to_string(), "alive".to_string()]);
    assert_eq!(plan.skipped.len(), 1);
    assert_eq!(plan.skipped[0].label, "orphan");
    assert_eq!(plan.skipped[0].parent, Some("missing".to_string()));
    assert_eq!(plan.skipped[0].reason, RestoreSkipReason::MissingParent);
    let mut live = plan.live_labels.clone();
    live.sort();
    assert_eq!(live, vec!["alive", "child", "grandchild", "main"]);
}

#[test]
fn stale_labels_collect_skipped_and_orphaned_alive_windows() {
    let plan = RestorePlan {
        restore_order: Vec::new(),
        already_alive: vec!["kept".into(), "stray".into()],
        already_alive_descriptors: vec![window("kept", Some("live")), window("stray", Some("gone"))],
        skipped: vec![
            RestoreSkippedWindow {
                label: "orphan".into(),
                parent: Some("gone".into()),
                reason: RestoreSkipReason::MissingParent,
            },
            RestoreSkippedWindow {
                label: "orphan".into(),
                parent: Some("gone".into()),
                reason: RestoreSkipReason::MissingParent,
            },
        ],
        live_labels: vec!["live".into(), "kept".into(), "stray".into()],
    };

    let mut stale = stale_restore_labels(&plan);
    stale.sort();
    assert_eq!(stale, vec!["orphan".to_string(), "stray".to_string()]);
}
