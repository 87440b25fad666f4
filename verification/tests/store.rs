use window_system::registry::sync_live_windows;
use window_system::store::{geometry_flusher_step, FlusherAction, FlusherEvent, FlusherPhase};
use window_system::{WindowDescriptor, WindowGeometry, WindowRegistry, WindowStateStore};

fn geometry(x: f64, y: f64, width: f64, height: f64) -> WindowGeometry {
    WindowGeometry {
        x: x.to_bits(),
        y: y.to_bits(),
        width: width.to_bits(),
        height: height.to_bits(),
    }
}

fn window(label: &str, parent: Option<&str>) -> WindowDescriptor {
    WindowDescriptor {
        label: label.into(),
        url: format!("{label}.html"),
        parent: parent.map(str::to_string),
        title: None,
        geometry: None,
    }
}

#[test]
fn remember_keeps_the_latest_geometry() {
    let mut store = WindowStateStore::new();
    let first = geometry(10.0, 20.0, 300.0, 200.0);
    let latest = geometry(40.0, 50.0, 640.0, 480.0);

    assert!(store.remember("main", first));
    assert!(store.remember("main", latest));

    assert_eq!(store.restore("main"), Some(latest));
    let entries = store.geometry_entries();
    assert_eq!(entries.len(), 1);
    assert_eq!(entries[0].label, "main");
    assert_eq!(entries[0].geometry, latest);
}

#[test]
fn identical_geometry_is_ignored() {
    let mut store = WindowStateStore::new();
    let value = geometry(1.0, 2.0, 3.0, 4.0);

    assert!(store.remember("main", value));
    assert!(!store.remember("main", value));
}

#[test]
fn forget_drops_geometry_once() {
    let mut store = WindowStateStore::new();
    store.remember("main", geometry(1.0, 2.0, 3.0, 4.0));

    assert!(store.forget("main"));
    assert!(!store.forget("main"));
    assert_eq!(store.restore("main"), None);
}

#[test]
fn identical_tracked_descriptor_is_ignored() {
    let mut store = WindowStateStore::new();

    assert!(store.remember_window(window("main", None)));
    assert!(!store.remember_window(window("main", None)));
    assert!(store.remember_window(window("main", Some("root"))));
    assert_eq!(store.restore_tracked_windows(), vec![window("main", Some("root"))]);
}

#[test]
fn tracked_windows_come_back_in_label_order() {
    let mut store = WindowStateStore::new();
    store.remember_window(window("zeta", None));
    store.remember_window(window("alpha", None));
    store.remember_window(window("mid", Some("alpha")));

    let labels: Vec<String> = store
        .restore_tracked_windows()
        .into_iter()
        .map(|window| window.label)
        .collect();
    assert_eq!(labels, vec!["alpha", "mid", "zeta"]);
}

#[test]
fn purge_drops_tracking_and_geometry() {
    let mut store = WindowStateStore::new();
    store.remember_window(window("main", None));
    store.remember("main", geometry(1.0, 2.0, 3.0, 4.0));

    assert!(store.purge_window("main"));
    assert!(!store.purge_window("main"));
    assert!(store.restore_tracked_windows().is_empty());
    assert_eq!(store.restore("main"), None);
}

#[test]
fn insert_leaves_persisted_state_alone() {
    let mut registry = WindowRegistry::new(WindowStateStore::new());
    let mut main = window("main", None);
    main.geometry = Some(geometry(5.0, 6.0, 7.0, 8.0));

    registry.insert(main.clone());

    assert_eq!(registry.get("main"), Some(main));
    assert!(registry.restore_tracked_windows().is_empty());
    assert_eq!(registry.restore_geometry("main"), None);
}

#[test]
fn track_window_records_descriptor_without_geometry() {
    let mut registry = WindowRegistry::new(WindowStateStore::new());
    let mut main = window("main", None);
    main.geometry = Some(geometry(5.0, 6.0, 7.0, 8.0));

    assert!(registry.track_window(&main));
    assert!(!registry.track_window(&main));

    assert!(registry.get("main").is_none());
    assert_eq!(registry.restore_tracked_windows(), vec![window("main", None)]);
}

#[test]
fn remember_geometry_ignores_unknown_and_identical() {
    let mut registry = WindowRegistry::new(WindowStateStore::new());
    let value = geometry(1.0, 2.0, 3.0, 4.0);

    assert!(!registry.remember_geometry("ghost", value));
    assert_eq!(registry.restore_geometry("ghost"), None);

    registry.insert(window("main", None));
    assert!(registry.remember_geometry("main", value));
    assert!(!registry.remember_geometry("main", value));
    assert_eq!(registry.get("main").unwrap().geometry, Some(value));
}

#[test]
fn sync_registers_live_windows_in_label_order() {
    let mut registry = WindowRegistry::new(WindowStateStore::new());

    sync_live_windows(&mut registry, vec![window("b", None), window("a", None), window("b", Some("a"))]);
    sync_live_windows(&mut registry, vec![window("a", None)]);

    let labels: Vec<String> = registry.list().into_iter().map(|w| w.label).collect();
    assert_eq!(labels, vec!["a", "b"]);
    assert_eq!(registry.child_labels_of("a"), vec!["b".to_string()]);
    assert!(registry.restore_tracked_windows().is_empty());
}

#[test]
fn upsert_live_window_replaces_descriptor() {
    let mut registry = WindowRegistry::new(WindowStateStore::new());
    registry.upsert_live_window(window("main", None));
    let mut retitled = window("main", None);
    retitled.title = Some("Main".into());

    registry.upsert_live_window(retitled.clone());
    assert_eq!(registry.get("main"), Some(retitled));
}

#[test]
fn geometry_equality_follows_doubles() {
    let mut store = WindowStateStore::new();
    assert!(store.remember("main", geometry(0.0, 1.0, 2.0, 3.0)));
    assert!(!store.remember("main", geometry(-0.0, 1.0, 2.0, 3.0)));
    assert_eq!(store.restore("main"), Some(geometry(0.0, 1.0, 2.0, 3.0)));

    assert!(store.remember("nan", geometry(f64::NAN, 1.0, 2.0, 3.0)));
    assert!(store.remember("nan", geometry(f64::NAN, 1.0, 2.0, 3.0)));
}

#[test]
fn flusher_coalesces_a_burst_into_one_write() {
    let mut phase = FlusherPhase::Idle;
    let mut flushes = 0;
    for event in [
        FlusherEvent::Signal,
        FlusherEvent::Signal,
        FlusherEvent::Signal,
        FlusherEvent::QuietPeriodElapsed,
    ] {
        let (next, action) = geometry_flusher_step(phase, event, true);
        if action == FlusherAction::FlushThenWaitForSignal {
            flushes += 1;
        }
        phase = next;
    }
    assert_eq!(flushes, 1);
    assert_eq!(phase, FlusherPhase::Idle);
}

#[test]
fn flusher_stops_on_close_and_flushes_pending_only() {
    assert_eq!(
        geometry_flusher_step(FlusherPhase::Debouncing, FlusherEvent::ChannelClosed, true).1,
        FlusherAction::FlushThenStop
    );
    assert_eq!(
        geometry_flusher_step(FlusherPhase::Idle, FlusherEvent::ChannelClosed, true).1,
        FlusherAction::Stop
    );
    assert_eq!(
        geometry_flusher_step(FlusherPhase::Debouncing, FlusherEvent::ChannelClosed, false).1,
        FlusherAction::Stop
    );
    assert_eq!(
        geometry_flusher_step(FlusherPhase::Debouncing, FlusherEvent::QuietPeriodElapsed, false),
        (FlusherPhase::Idle, FlusherAction::WaitForSignal)
    );
}
