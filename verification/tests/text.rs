use window_system::commands::{normalize_optional_text, normalize_required_text, normalize_window_url};
use window_system::error::{window_not_found_error, window_system_error};
use window_system::text::{compare_labels, trim_text, LabelOrder};
use window_system::WindowSystemErrorKind;

#[test]
fn trim_removes_unicode_white_space_at_both_ends() {
    assert_eq!(trim_text("  main\t\n"), "main");
    assert_eq!(trim_text("\u{3000}label\u{00A0}"), "label");
    assert_eq!(trim_text(" a b "), "a b");
    assert_eq!(trim_text("   "), "");
    assert_eq!(trim_text(""), "");
}

#[test]
fn labels_compare_by_code_point() {
    assert_eq!(compare_labels("alpha", "beta"), LabelOrder::Less);
    assert_eq!(compare_labels("main", "main"), LabelOrder::Equal);
    assert_eq!(compare_labels("main-b", "main-a"), LabelOrder::Greater);
    assert_eq!(compare_labels("main", "main-a"), LabelOrder::Less);
    assert_eq!(compare_labels("Z", "a"), LabelOrder::Less);
    assert_eq!(compare_labels("é", "z"), LabelOrder::Greater);
}

#[test]
fn error_text_starts_with_its_code() {
    let cases = [
        (WindowSystemErrorKind::InvalidLabel, "invalid-label"),
        (WindowSystemErrorKind::WindowAlreadyExists, "window-already-exists"),
        (WindowSystemErrorKind::WindowCannotBeItsOwnParent, "window-cannot-be-its-own-parent"),
        (WindowSystemErrorKind::ParentWindowNotFound, "parent-window-not-found"),
        (WindowSystemErrorKind::WindowNotFound, "window-not-found"),
        (WindowSystemErrorKind::WindowReservationNotFound, "window-reservation-not-found"),
        (WindowSystemErrorKind::WindowRegistryLockPoisoned, "window-registry-lock-poisoned"),
        (WindowSystemErrorKind::WindowStateStoreLockPoisoned, "window-state-store-lock-poisoned"),
    ];
    for (kind, code) in cases {
        assert_eq!(kind.code(), code);
        assert_eq!(window_system_error(kind, "details"), format!("{code}: details"));
    }
    assert_eq!(window_not_found_error("main"), "window-not-found: window not found: main");
}

#[test]
fn required_text_is_trimmed_or_refused() {
    assert_eq!(normalize_required_text(" main ".into(), "label"), Ok("main".to_string()));
    assert_eq!(
        normalize_required_text(" \t ".into(), "label"),
        Err("invalid-label: label is required".to_string())
    );
}

#[test]
fn optional_text_drops_blanks() {
    assert_eq!(normalize_optional_text(Some(" Title ".into())), Some("Title".to_string()));
    assert_eq!(normalize_optional_text(Some("   ".into())), None);
    assert_eq!(normalize_optional_text(None), None);
}

#[test]
fn window_url_defaults_to_index() {
    assert_eq!(normalize_window_url(None), "index.html");
    assert_eq!(normalize_window_url(Some("  ".into())), "index.html");
    assert_eq!(normalize_window_url(Some(" child.html ".into())), "child.html");
}

#[test]
fn normalizing_twice_changes_nothing() {
    let once = normalize_required_text("\t main window \n".into(), "label").expect("not blank");
    let twice = normalize_required_text(once.clone(), "label").expect("not blank");
    assert_eq!(once, "main window");
    assert_eq!(twice, once);

    let url = normalize_window_url(Some("  ".into()));
    assert_eq!(normalize_window_url(Some(url.clone())), url);

    let title = normalize_optional_text(Some(" Child ".into()));
    assert_eq!(normalize_optional_text(title.clone()), title);
    assert_eq!(trim_text(&trim_text("  x  ")), trim_text("  x  "));
}
