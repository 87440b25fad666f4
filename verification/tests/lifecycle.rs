use window_system::lifecycle::format_teardown_failure;
use window_system::{CloseStep, WindowCloseTree, WindowDescriptor, WindowRegistry, WindowStateStore};

#[test]
fn teardown_failure_message_includes_context() {
    let message = format_teardown_failure("close-requested", "main", "boom");

    assert!(message.contains("stage=close-requested"));
    assert!(message.contains("label=main"));
    assert!(message.contains("error=boom"));
}

#[test]
fn teardown_error_message_is_collectable() {
    let message = format!("main: destroy failed: boom");

    assert!(message.contains("main"));
    assert!(message.contains("destroy failed"));
    assert!(message.contains("boom"));
}

fn window(label: &str, parent: Option<&str>) -> WindowDescriptor {
    WindowDescriptor {
        label: label.into(),
        url: format!("{label}.html"),
        parent: parent.map(str::to_string),
        title: None,
        geometry: None,
    }
}

fn run_teardown(
    registry: &mut WindowRegistry,
    label: &str,
    failing: &[&str],
) -> (Vec<String>, Result<(), String>) {
    let mut tree = WindowCloseTree::new(label, false);
    let mut destroyed = Vec::new();
    loop {
        match tree.step(registry) {
            CloseStep::Continue => {}
            CloseStep::Destroy(label) => {
                let error = if failing.contains(&label.as_str()) {
                    Some("boom".to_string())
                } else {
                    None
                };
                destroyed.push(label);
                tree.complete_exit(registry, error);
            }
            CloseStep::Done => break,
        }
    }
    (destroyed, tree.finish())
}

#[test]
fn teardown_destroys_children_before_parent() {
    let mut registry = WindowRegistry::new(WindowStateStore::new());
    registry.insert(window("main", None));
    registry.insert(window("b", Some("main")));
    registry.insert(window("a", Some("main")));
    registry.insert(window("a1", Some("a")));
    registry.insert(window("other", None));

    let (destroyed, outcome) = run_teardown(&mut registry, "main", &[]);

    assert_eq!(destroyed, vec!["a1", "a", "b", "main"]);
    assert_eq!(outcome, Ok(()));
    assert_eq!(registry.list().len(), 1);
    assert_eq!(registry.list()[0].label, "other");
    assert!(registry.begin_closing("main").is_some());
}

#[test]
fn teardown_skips_windows_already_closing() {
    let mut registry = WindowRegistry::new(WindowStateStore::new());
    registry.insert(window("main", None));
    registry.insert(window("child", Some("main")));
    let guard = registry.begin_closing("child").expect("child should be marked");

    let (destroyed, outcome) = run_teardown(&mut registry, "main", &[]);

    assert_eq!(destroyed, vec!["main"]);
    assert_eq!(outcome, Ok(()));
    assert_eq!(registry.child_labels_of("main"), vec!["child".to_string()]);
    registry.finish_closing(guard);
}

#[test]
fn teardown_collects_destroy_failures() {
    let mut registry = WindowRegistry::new(WindowStateStore::new());
    registry.insert(window("main", None));
    registry.insert(window("child", Some("main")));

    let (_, outcome) = run_teardown(&mut registry, "main", &["child", "main"]);

    assert_eq!(
        outcome,
        Err("child: destroy failed: boom; main: destroy failed: boom".to_string())
    );
    assert!(registry.list().is_empty());
}

#[test]
fn teardown_of_marked_window_keeps_callers_mark() {
    let mut registry = WindowRegistry::new(WindowStateStore::new());
    registry.insert(window("main", None));
    let guard = registry.begin_closing("main").expect("main should be marked");

    let mut tree = WindowCloseTree::new("main", true);
    assert_eq!(tree.step(&mut registry), CloseStep::Continue);
    assert_eq!(tree.step(&mut registry), CloseStep::Destroy("main".to_string()));
    assert_eq!(tree.step(&mut registry), CloseStep::Destroy("main".to_string()));
    tree.complete_exit(&mut registry, None);
    assert_eq!(tree.step(&mut registry), CloseStep::Done);

    assert!(registry.get("main").is_none());
    assert!(registry.begin_closing("main").is_none());
    registry.finish_closing(guard);
}

#[test]
fn abandoned_exit_is_recorded_and_teardown_goes_on() {
    let mut registry = WindowRegistry::new(WindowStateStore::new());
    registry.insert(window("main", None));
    registry.insert(window("child", Some("main")));

    let mut tree = WindowCloseTree::new("main", false);
    let mut abandoned = false;
    loop {
        match tree.step(&mut registry) {
            CloseStep::Continue => {}
            CloseStep::Destroy(label) => {
                if label == "child" && !abandoned {
                    abandoned = true;
                    tree.abandon_exit("registry remove failed: poisoned");
                } else {
                    tree.complete_exit(&mut registry, None);
                }
            }
            CloseStep::Done => break,
        }
    }

    assert_eq!(
        tree.finish(),
        Err("child: registry remove failed: poisoned".to_string())
    );
    assert!(registry.get("main").is_none());
    assert!(registry.get("child").is_some());
}

#[test]
fn teardown_removes_only_the_subtree_and_keeps_other_marks() {
    let mut registry = WindowRegistry::new(WindowStateStore::new());
    registry.insert(window("main", None));
    registry.insert(window("child", Some("main")));
    registry.insert(window("grandchild", Some("child")));
    registry.insert(window("side", None));
    let side_guard = registry.begin_closing("side").expect("side should be marked");

    let (destroyed, outcome) = run_teardown(&mut registry, "main", &[]);

    assert_eq!(destroyed, vec!["grandchild", "child", "main"]);
    assert_eq!(outcome, Ok(()));
    assert_eq!(registry.list().len(), 1);
    assert_eq!(registry.list()[0].label, "side");
    assert!(registry.begin_closing("side").is_none());
    let main_guard = registry.begin_closing("main").expect("main mark should be released");
    registry.finish_closing(main_guard);
    registry.finish_closing(side_guard);
}
