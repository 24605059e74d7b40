use slyboard::active_window::ActiveWindowContext;
use slyboard::state::{ClipboardEntry, ClipboardState, DEFAULT_HISTORY_LIMIT};

fn text(value: &str) -> ClipboardEntry {
    ClipboardEntry::Text {
        value: value.to_string(),
        source_window: None,
    }
}

fn text_from(value: &str, title: &str) -> ClipboardEntry {
    ClipboardEntry::Text {
        value: value.to_string(),
        source_window: Some(ActiveWindowContext {
            backend: "hyprctl".to_string(),
            title: title.to_string(),
            app_id: None,
            initial_app_id: None,
            initial_title: None,
            window_id: None,
            pid: None,
            workspace_id: None,
            workspace_name: None,
            is_xwayland: None,
        }),
    }
}

fn image(pixels: Vec<u8>) -> ClipboardEntry {
    ClipboardEntry::Image {
        width: 2,
        height: 1,
        rowstride: 8,
        has_alpha: true,
        bits_per_sample: 8,
        channels: 4,
        pixels,
        source_window: None,
    }
}

#[test]
fn length_never_exceeds_limit() {
    let mut state = ClipboardState::new(3);
    for i in 0..10 {
        assert!(state.record_entry(text(&format!("entry {i}"))));
        assert!(state.history_snapshot().len() <= 3);
    }
    let snapshot = state.history_snapshot();
    assert_eq!(snapshot, vec![text("entry 9"), text("entry 8"), text("entry 7")]);
}

#[test]
fn recording_same_entry_twice_changes_store_once() {
    let mut state = ClipboardState::new(DEFAULT_HISTORY_LIMIT);
    assert!(state.record_entry(text("hello")));
    let after_first = state.history_snapshot();
    assert!(!state.record_entry(text("hello")));
    assert_eq!(state.history_snapshot(), after_first);
}

#[test]
fn recording_a_b_a_moves_to_front() {
    let mut state = ClipboardState::new(DEFAULT_HISTORY_LIMIT);
    assert!(state.record_entry(text("A")));
    assert!(state.record_entry(text("B")));
    assert!(state.record_entry(text("A")));
    assert_eq!(state.history_snapshot(), vec![text("A"), text("B")]);
}

#[test]
fn empty_entries_are_rejected() {
    let mut state = ClipboardState::new(DEFAULT_HISTORY_LIMIT);
    assert!(!state.record_entry(text("")));
    assert!(!state.record_entry(image(vec![])));
    assert!(state.history_snapshot().is_empty());
}

#[test]
fn duplicate_content_keeps_latest_provenance() {
    let mut state = ClipboardState::new(DEFAULT_HISTORY_LIMIT);
    assert!(state.record_entry(text_from("hello", "Editor")));
    assert!(state.record_entry(text("other")));
    // same content from another window: moved to front, new provenance kept
    assert!(state.record_entry(text_from("hello", "Terminal")));
    let snapshot = state.history_snapshot();
    assert_eq!(snapshot.len(), 2);
    assert_eq!(
        snapshot[0],
        text_from("hello", "Terminal"),
        "front entry should carry the latest occurrence's window"
    );
    assert_eq!(snapshot[1], text("other"));
}

#[test]
fn duplicate_already_in_front_is_a_no_op_even_with_new_provenance() {
    let mut state = ClipboardState::new(DEFAULT_HISTORY_LIMIT);
    assert!(state.record_entry(text_from("hello", "Editor")));
    assert!(!state.record_entry(text_from("hello", "Terminal")));
    assert_eq!(state.history_snapshot(), vec![text_from("hello", "Editor")]);
}

#[test]
fn oldest_entry_is_evicted_first() {
    let mut state = ClipboardState::new(2);
    assert!(state.record_entry(text("one")));
    assert!(state.record_entry(text("two")));
    assert!(state.record_entry(text("three")));
    assert_eq!(state.history_snapshot(), vec![text("three"), text("two")]);
}

#[test]
fn clear_empties_the_store() {
    let mut state = ClipboardState::new(DEFAULT_HISTORY_LIMIT);
    assert!(state.record_entry(text("a")));
    assert!(state.record_entry(image(vec![1, 2, 3])));
    state.clear_history();
    assert!(state.history_snapshot().is_empty());
}

#[test]
fn images_deduplicate_by_content() {
    let mut state = ClipboardState::new(DEFAULT_HISTORY_LIMIT);
    assert!(state.record_entry(image(vec![1, 2, 3])));
    assert!(state.record_entry(image(vec![4, 5, 6])));
    assert!(state.record_entry(image(vec![1, 2, 3])));
    let snapshot = state.history_snapshot();
    assert_eq!(snapshot.len(), 2);
    assert_eq!(snapshot[0], image(vec![1, 2, 3]));
    assert_eq!(snapshot[1], image(vec![4, 5, 6]));
}

#[test]
fn from_entries_truncates_to_limit() {
    let entries = vec![text("a"), text("b"), text("c"), text("d")];
    let state = ClipboardState::from_entries(2, &entries);
    assert_eq!(state.history_snapshot(), vec![text("a"), text("b")]);
}

#[test]
fn from_entries_drops_empty_and_duplicate_content() {
    let entries = vec![text("a"), text(""), text("a"), text("b")];
    let state = ClipboardState::from_entries(10, &entries);
    assert_eq!(state.history_snapshot(), vec![text("a"), text("b")]);
}

#[test]
fn entry_emptiness_and_content_equality() {
    assert!(text("").is_empty());
    assert!(!text("x").is_empty());
    assert!(image(vec![]).is_empty());
    assert!(!image(vec![0]).is_empty());
    // content equality ignores provenance
    assert!(text("v").content_eq(&text_from("v", "Terminal")));
    assert!(!text("v").content_eq(&text("w")));
    assert!(!text("v").content_eq(&image(vec![1])));
}
