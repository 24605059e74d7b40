use slyboard::active_window::ActiveWindowContext;
use slyboard::state::{ClipboardEntry, ClipboardState};
use slyboard::storage::{decode_history, encode_history};

fn text(value: &str) -> ClipboardEntry {
    ClipboardEntry::Text {
        value: value.to_string(),
        source_window: None,
    }
}

fn full_window() -> ActiveWindowContext {
    ActiveWindowContext {
        backend: "hyprctl".to_string(),
        title: "Terminal".to_string(),
        app_id: Some("kitty".to_string()),
        initial_app_id: Some("kitty-init".to_string()),
        initial_title: Some("zsh".to_string()),
        window_id: Some("0xdeadbeef".to_string()),
        pid: Some(4242),
        workspace_id: Some(3),
        workspace_name: Some("web".to_string()),
        is_xwayland: Some(false),
    }
}

#[test]
fn round_trip_preserves_entries_and_provenance() {
    let entries = vec![
        ClipboardEntry::Text {
            value: "hello \"quoted\" and \\ slash\nnewline\ttab".to_string(),
            source_window: Some(full_window()),
        },
        ClipboardEntry::Image {
            width: 2,
            height: 2,
            rowstride: 8,
            has_alpha: true,
            bits_per_sample: 8,
            channels: 4,
            pixels: vec![0, 1, 127, 255],
            source_window: None,
        },
        text("plain"),
    ];
    let encoded = encode_history(&entries);
    let decoded = decode_history(&encoded).expect("own encoding must decode");
    assert_eq!(decoded, entries);
}

#[test]
fn encoded_document_has_the_stable_shape() {
    let entries = vec![text("a")];
    let encoded = encode_history(&entries);
    assert_eq!(
        encoded,
        "{\"history\":[{\"kind\":\"text\",\"value\":\"a\",\"source_window\":null}]}"
    );
}

#[test]
fn legacy_plain_string_history_loads_as_text_entries() {
    let decoded = decode_history("{\"history\": [\"a\",\"b\"]}").expect("legacy shape must load");
    assert_eq!(decoded, vec![text("a"), text("b")]);
}

#[test]
fn legacy_strings_with_escapes_decode() {
    let decoded = decode_history("{\"history\": [\"\\u0041\\n\"]}").expect("escapes must decode");
    assert_eq!(decoded, vec![text("A\n")]);
}

#[test]
fn corrupt_file_is_refused() {
    assert!(decode_history("not json at all").is_none());
    assert!(decode_history("{\"history\": 7}").is_none());
    assert!(decode_history("{}").is_none());
    // a mixed array matches neither the current nor the legacy shape
    assert!(
        decode_history("{\"history\": [\"a\", {\"kind\":\"text\",\"value\":\"b\",\"source_window\":null}]}")
            .is_none()
    );
    // an entry with a wrongly typed field is refused
    assert!(decode_history("{\"history\": [{\"kind\":\"text\",\"value\":3}]}").is_none());
}

#[test]
fn save_then_load_reproduces_store_content() {
    let mut state = ClipboardState::new(10);
    assert!(state.record_entry(text("one")));
    assert!(state.record_entry(ClipboardEntry::Text {
        value: "two".to_string(),
        source_window: Some(full_window()),
    }));
    let saved = encode_history(&state.history_snapshot());
    let loaded = decode_history(&saved).expect("saved history must load");
    let restored = ClipboardState::from_entries(10, &loaded);
    assert_eq!(restored.history_snapshot(), state.history_snapshot());
}

#[test]
fn load_truncates_an_overlong_file() {
    let entries = vec![text("a"), text("b"), text("c")];
    let saved = encode_history(&entries);
    let loaded = decode_history(&saved).expect("saved history must load");
    let restored = ClipboardState::from_entries(2, &loaded);
    assert_eq!(restored.history_snapshot(), vec![text("a"), text("b")]);
}

#[test]
fn decode_accepts_missing_source_window() {
    let decoded = decode_history("{\"history\": [{\"kind\":\"text\",\"value\":\"x\"}]}")
        .expect("entry without source_window must load");
    assert_eq!(decoded, vec![text("x")]);
}

#[test]
fn decode_reads_back_full_window_metadata() {
    let entries = vec![ClipboardEntry::Text {
        value: "v".to_string(),
        source_window: Some(full_window()),
    }];
    let decoded = decode_history(&encode_history(&entries)).expect("must decode");
    match &decoded[0] {
        ClipboardEntry::Text { source_window, .. } => {
            let w = source_window.as_ref().expect("window kept");
            assert_eq!(w.pid, Some(4242));
            assert_eq!(w.workspace_id, Some(3));
            assert_eq!(w.workspace_name.as_deref(), Some("web"));
            assert_eq!(w.is_xwayland, Some(false));
            assert_eq!(w.window_id.as_deref(), Some("0xdeadbeef"));
        }
        _ => panic!("expected text entry"),
    }
}

#[test]
fn surrogate_pair_escapes_decode_to_one_character() {
    let decoded = decode_history("{\"history\": [\"\\uD83D\\uDE00\"]}")
        .expect("a surrogate pair is a valid escape");
    assert_eq!(decoded, vec![text("\u{1F600}")]);
    // a lone high surrogate is not
    assert!(decode_history("{\"history\": [\"\\uD83D\"]}").is_none());
}

#[test]
fn non_ascii_text_round_trips() {
    let entries = vec![text("Grüße — ειρήνη — 你好")];
    let decoded = decode_history(&encode_history(&entries)).expect("must decode");
    assert_eq!(decoded, entries);
}

#[test]
fn control_characters_are_escaped_and_recovered() {
    let entries = vec![text("a\u{1}b\u{1f}c")];
    let encoded = encode_history(&entries);
    assert!(encoded.contains("\\u0001"));
    assert!(encoded.contains("\\u001f"));
    assert_eq!(decode_history(&encoded).expect("must decode"), entries);
}
