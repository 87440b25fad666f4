use serde_json::Value;
use window_system::message::{
    broadcast_window_message, build_window_message_envelope, current_live_window_labels,
    current_timestamp_ms, send_window_message, timestamp_from_elapsed,
};
use window_system::{
    BroadcastWindowMessageRequest, SendWindowMessageRequest, WindowDescriptor, WindowMessageKind,
    WindowMessageScope, WindowRegistry, WindowStateStore,
};

fn object(key: &str, value: Value) -> Value {
    let mut map = serde_json::Map::new();
    map.insert(key.to_string(), value);
    Value::Object(map)
}

#[test]
fn build_window_message_envelope_uses_consistent_shape() {
    let envelope = build_window_message_envelope(
        "main".to_string(),
        Some("child".into()),
        WindowMessageScope::Direct,
        WindowMessageKind::Request,
        "window-system:ping".to_string(),
        Some("corr-1".into()),
        object("hello", Value::String("world".into())),
    );

    assert_eq!(envelope.from, "main");
    assert_eq!(envelope.to.as_deref(), Some("child"));
    assert_eq!(envelope.topic, "window-system:ping");
    assert_eq!(envelope.correlation_id.as_deref(), Some("corr-1"));
    assert_eq!(envelope.payload["hello"], "world");
    assert!(envelope.timestamp_ms > 0);
}

#[test]
fn current_timestamp_is_after_the_epoch() {
    assert!(current_timestamp_ms() > 0);
}

fn registry_with(labels: &[&str]) -> WindowRegistry {
    let mut registry = WindowRegistry::new(WindowStateStore::new());
    for label in labels {
        registry.insert(WindowDescriptor {
            label: label.to_string(),
            url: "index.html".into(),
            parent: None,
            title: None,
            geometry: None,
        });
    }
    registry
}

#[test]
fn live_labels_merge_application_and_registry() {
    let registry = registry_with(&["main", "child"]);

    let live = current_live_window_labels(vec!["main".into(), "tool".into(), "main".into()], &registry);

    assert_eq!(live, vec!["main".to_string(), "tool".to_string(), "child".to_string()]);
}

#[test]
fn send_to_live_window_addresses_it() {
    let live = vec!["main".to_string(), "child".to_string()];
    let result = send_window_message(
        "main".to_string(),
        &live,
        SendWindowMessageRequest {
            to: "child".into(),
            kind: WindowMessageKind::Request,
            topic: "window-system:ping".into(),
            correlation_id: Some("corr-1".into()),
            payload: Value::Null,
        },
    )
    .expect("child is live");

    assert_eq!(result.delivered_to, vec!["child".to_string()]);
    assert_eq!(result.envelope.from, "main");
    assert_eq!(result.envelope.to.as_deref(), Some("child"));
    assert_eq!(result.envelope.scope, WindowMessageScope::Direct);
    assert_eq!(result.envelope.kind, WindowMessageKind::Request);
}

#[test]
fn send_to_missing_window_is_refused() {
    let live = vec!["main".to_string()];
    let error = send_window_message(
        "main".to_string(),
        &live,
        SendWindowMessageRequest {
            to: "ghost".into(),
            kind: WindowMessageKind::Event,
            topic: "window-system:status".into(),
            correlation_id: None,
            payload: Value::Null,
        },
    )
    .expect_err("ghost is not live");

    assert_eq!(error, "window-not-found: window not found: ghost");
}

#[test]
fn broadcast_goes_to_every_live_window() {
    let live = vec!["main".to_string(), "child".to_string()];
    let result = broadcast_window_message(
        "main".to_string(),
        live.clone(),
        BroadcastWindowMessageRequest {
            kind: WindowMessageKind::Event,
            topic: "window-system:status".into(),
            correlation_id: None,
            payload: object("windows", Value::from(3)),
        },
    );

    assert_eq!(result.delivered_to, live);
    assert_eq!(result.envelope.scope, WindowMessageScope::Broadcast);
    assert_eq!(result.envelope.kind, WindowMessageKind::Event);
    assert!(result.envelope.to.is_none());
    assert!(result.envelope.correlation_id.is_none());
    assert_eq!(result.envelope.payload["windows"], 3);
}

#[test]
fn timestamp_maps_clock_reading() {
    assert_eq!(timestamp_from_elapsed(None), 0);
    assert_eq!(timestamp_from_elapsed(Some(1_725_029_869_000)), 1_725_029_869_000);
    assert_eq!(timestamp_from_elapsed(Some((1u128 << 64) + 5)), 5);
}
