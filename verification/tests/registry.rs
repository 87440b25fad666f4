use window_system::{WindowDescriptor, WindowGeometry, WindowRegistry, WindowStateStore};

fn geometry(x: f64, y: f64, width: f64, height: f64) -> WindowGeometry {
    WindowGeometry {
        x: x.to_bits(),
        y: y.to_bits(),
        width: width.to_bits(),
        height: height.to_bits(),
    }
}

fn window(label: &str, url: &str, parent: Option<&str>) -> WindowDescriptor {
    WindowDescriptor {
        label: label.into(),
        url: url.into(),
        parent: parent.map(str::to_string),
        title: None,
        geometry: None,
    }
}

#[test]
fn remember_and_restore_geometry() {
    let mut store = WindowStateStore::new();
    let geometry = geometry(10.0, 20.0, 300.0, 200.0);

    store.remember("main", geometry);

    assert_eq!(store.restore("main"), Some(geometry));
}

#[test]
fn remove_does_not_clear_geometry() {
    let mut registry = WindowRegistry::new(WindowStateStore::new());
    let geometry = geometry(1.0, 2.0, 3.0, 4.0);

    registry.insert(window("main", "index.html", None));
    registry.remember_geometry("main", geometry);

    registry.remove("main");

    assert_eq!(registry.restore_geometry("main"), Some(geometry));
}

#[test]
fn registry_lists_and_filters_children() {
    let mut registry = WindowRegistry::new(WindowStateStore::new());
    registry.insert(window("main", "index.html", None));
    registry.insert(window("child", "child.html", Some("main")));

    assert_eq!(registry.list().len(), 2);
    assert_eq!(registry.children_of("main").len(), 1);
    assert_eq!(registry.child_labels_of("main"), vec!["child".to_string()]);
}

#[test]
fn update_reindexes_parent_relationships() {
    let mut registry = WindowRegistry::new(WindowStateStore::new());
    registry.insert(window("main-a", "main-a.html", None));
    registry.insert(window("main-b", "main-b.html", None));
    registry.insert(window("child", "child.html", Some("main-a")));

    registry.insert(window("child", "child.html", Some("main-b")));

    assert!(registry.child_labels_of("main-a").is_empty());
    assert_eq!(registry.child_labels_of("main-b"), vec!["child".to_string()]);
}

#[test]
fn remove_updates_child_index() {
    let mut registry = WindowRegistry::new(WindowStateStore::new());
    registry.insert(window("main", "index.html", None));
    registry.insert(window("child", "child.html", Some("main")));

    registry.remove("child");

    assert!(registry.child_labels_of("main").is_empty());
    assert!(registry.children_of("main").is_empty());
}

#[test]
fn reservation_rejects_duplicate_labels() {
    let mut registry = WindowRegistry::new(WindowStateStore::new());
    let _reservation = registry.reserve_window("main", None).expect("first reserve");

    assert!(registry.reserve_window("main", None).is_err());
}

#[test]
fn reservation_rejects_missing_parent() {
    let mut registry = WindowRegistry::new(WindowStateStore::new());

    assert!(registry.reserve_window("child", Some("main")).is_err());
}

#[test]
fn reservation_rejects_self_parent() {
    let mut registry = WindowRegistry::new(WindowStateStore::new());

    assert!(registry.reserve_window("main", Some("main")).is_err());
}

#[test]
fn reservation_rejects_closing_parent() {
    let mut registry = WindowRegistry::new(WindowStateStore::new());
    registry.insert(window("main", "index.html", None));
    let guard = registry.begin_closing("main").expect("closing should be marked");

    assert!(registry.reserve_window("child", Some("main")).is_err());
    registry.finish_closing(guard);
}

#[test]
fn closing_guard_prevents_duplicate_begin() {
    let mut registry = WindowRegistry::new(WindowStateStore::new());
    let guard = registry.begin_closing("main").expect("first closing mark");

    assert!(registry.begin_closing("main").is_none());

    registry.finish_closing(guard);
    assert!(registry.begin_closing("main").is_some());
}
