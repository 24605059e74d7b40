use std::cell::RefCell;

use slyboard::active_window::ActiveWindowContext;
use slyboard::poller::{ClipboardBackend, ClipboardPoller};
use slyboard::state::ClipboardEntry;

struct MockBackend {
    entries: RefCell<Vec<Option<ClipboardEntry>>>,
    active_windows: RefCell<Vec<Option<ActiveWindowContext>>>,
}

impl MockBackend {
    fn new(
        entries: Vec<Option<ClipboardEntry>>,
        active_windows: Vec<Option<ActiveWindowContext>>,
    ) -> Self {
        Self {
            entries: RefCell::new(entries),
            active_windows: RefCell::new(active_windows),
        }
    }
}

impl ClipboardBackend for MockBackend {
    fn read_entry(&self) -> Option<ClipboardEntry> {
        self.entries.borrow_mut().remove(0)
    }

    fn read_active_window(&self) -> Option<ActiveWindowContext> {
        self.active_windows.borrow_mut().remove(0)
    }
}

fn text(value: &str) -> ClipboardEntry {
    ClipboardEntry::Text {
        value: value.to_string(),
        source_window: None,
    }
}

fn window(backend: &str, title: &str, app_id: Option<&str>) -> ActiveWindowContext {
    ActiveWindowContext {
        backend: backend.to_string(),
        title: title.to_string(),
        app_id: app_id.map(|v| v.to_string()),
        initial_app_id: None,
        initial_title: None,
        window_id: None,
        pid: None,
        workspace_id: None,
        workspace_name: None,
        is_xwayland: None,
    }
}

#[test]
fn skips_entry_when_app_id_is_blacklisted() {
    let backend = MockBackend::new(
        vec![Some(text("secret"))],
        vec![Some(window("hyprctl", "KeePassXC", Some("keepassxc")))],
    );
    let mut poller = ClipboardPoller::new(backend, vec!["KeePassXC".to_string()]);

    let entry = poller.poll_once();
    assert!(entry.is_none(), "blacklisted app id should be skipped");
}

#[test]
fn skips_entry_when_title_contains_blacklisted_value() {
    let backend = MockBackend::new(
        vec![Some(text("token"))],
        vec![Some(window("xdotool", "Slack | direct messages", None))],
    );
    let mut poller = ClipboardPoller::new(backend, vec!["slack".to_string()]);

    let entry = poller.poll_once();
    assert!(entry.is_none(), "blacklisted title should be skipped");
}

#[test]
fn accepts_entry_when_window_not_blacklisted() {
    let backend = MockBackend::new(
        vec![Some(text("hello"))],
        vec![Some(window("hyprctl", "Terminal", Some("kitty")))],
    );
    let mut poller = ClipboardPoller::new(backend, vec!["slack".to_string()]);

    let entry = poller.poll_once();
    assert!(entry.is_some(), "non-blacklisted window should be captured");
}

#[test]
fn emits_once_per_change_across_ticks() {
    let backend = MockBackend::new(
        vec![Some(text("x")), Some(text("x")), Some(text("y"))],
        vec![None, None, None],
    );
    let mut poller = ClipboardPoller::new(backend, vec![]);

    assert_eq!(poller.poll_once(), Some(text("x")));
    assert_eq!(poller.poll_once(), None);
    assert_eq!(poller.poll_once(), Some(text("y")));
}

#[test]
fn suppressed_entry_still_updates_last_seen() {
    let backend = MockBackend::new(
        vec![Some(text("secret")), Some(text("secret"))],
        vec![Some(window("hyprctl", "KeePassXC", Some("keepassxc")))],
    );
    let mut poller = ClipboardPoller::new(backend, vec!["keepassxc".to_string()]);

    assert_eq!(poller.poll_once(), None);
    // the identical value on the next tick is rejected as unchanged, before
    // the active window would even be consulted
    assert_eq!(poller.poll_once(), None);
}

#[test]
fn captured_entry_carries_source_window() {
    let backend = MockBackend::new(
        vec![Some(text("hello"))],
        vec![Some(window("hyprctl", "Terminal", Some("kitty")))],
    );
    let mut poller = ClipboardPoller::new(backend, vec!["slack".to_string()]);

    let entry = poller.poll_once().expect("entry should be captured");
    match entry {
        ClipboardEntry::Text {
            value,
            source_window,
        } => {
            assert_eq!(value, "hello");
            let sw = source_window.expect("source window should be attached");
            assert_eq!(sw.backend, "hyprctl");
            assert_eq!(sw.title, "Terminal");
            assert_eq!(sw.app_id.as_deref(), Some("kitty"));
        }
        _ => panic!("expected a text entry"),
    }
}

#[test]
fn blacklist_entries_are_normalized_before_matching() {
    let backend = MockBackend::new(
        vec![Some(text("secret"))],
        vec![Some(window("hyprctl", "KeePassXC", Some("keepassxc")))],
    );
    // surrounding white space and case differences must not defeat matching
    let mut poller = ClipboardPoller::new(backend, vec!["  KEEPASSXC  ".to_string()]);
    assert_eq!(poller.poll_once(), None);
}

#[test]
fn empty_blacklist_never_suppresses() {
    let backend = MockBackend::new(
        vec![Some(text("anything"))],
        vec![Some(window("hyprctl", "KeePassXC", Some("keepassxc")))],
    );
    let mut poller = ClipboardPoller::new(backend, vec![]);
    assert!(poller.poll_once().is_some());
}

#[test]
fn missing_window_context_fails_open() {
    let backend = MockBackend::new(vec![Some(text("data"))], vec![None]);
    let mut poller = ClipboardPoller::new(backend, vec!["slack".to_string()]);
    assert_eq!(poller.poll_once(), Some(text("data")));
}

#[test]
fn empty_clipboard_value_is_ignored() {
    let backend = MockBackend::new(vec![Some(text("")), None], vec![]);
    let mut poller = ClipboardPoller::new(backend, vec![]);
    assert_eq!(poller.poll_once(), None);
    assert_eq!(poller.poll_once(), None);
}

#[test]
fn poll_step_decides_from_given_readings() {
    // the decision half alone, fed the backend readings directly
    let backend = MockBackend::new(vec![], vec![]);
    let mut poller = ClipboardPoller::new(backend, vec!["slack".to_string()]);

    assert_eq!(poller.poll_step(None, None), None);
    assert_eq!(poller.poll_step(Some(text("")), None), None);
    assert_eq!(poller.poll_step(Some(text("x")), None), Some(text("x")));
    // unchanged content is rejected on the next step
    assert_eq!(poller.poll_step(Some(text("x")), None), None);
    // suppressed content still becomes the new baseline
    let slack = window("xdotool", "Slack | direct messages", None);
    assert_eq!(poller.poll_step(Some(text("y")), Some(slack)), None);
    assert_eq!(poller.poll_step(Some(text("y")), None), None);
}

#[test]
fn blacklist_matching_lowercases_unicode() {
    let backend = MockBackend::new(
        vec![Some(text("geheim"))],
        vec![Some(window("hyprctl", "Grüsse an alle", None))],
    );
    // the blacklist entry and the title only agree after Unicode lowercasing
    let mut poller = ClipboardPoller::new(backend, vec!["GRÜSSE".to_string()]);
    assert!(poller.poll_once().is_none());

    let backend = MockBackend::new(
        vec![Some(text("geheim"))],
        vec![Some(window("hyprctl", "GRÜSSE an alle", None))],
    );
    // 'ß' does not lowercase to "ss", so these never agree
    let mut poller = ClipboardPoller::new(backend, vec!["grüße".to_string()]);
    assert!(poller.poll_once().is_some());
}
