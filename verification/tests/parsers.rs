use slyboard::active_window::{
    parse_command_active_window, parse_hyprctl_active_window, parse_title_with_backend,
    parse_xdotool_active_window, provider_from_config, ActiveWindowProvider,
    AutoActiveWindowProvider,
};
use slyboard::config::ActiveWindowBackend;

#[test]
fn xdotool_parser_reads_key_value_lines() {
    let raw = "window_id=12345\ntitle=My Editor\napp_id=kitty\npid=777\nworkspace_id=2\n";
    let w = parse_xdotool_active_window(raw).expect("title present");
    assert_eq!(w.backend, "xdotool");
    assert_eq!(w.title, "My Editor");
    assert_eq!(w.app_id.as_deref(), Some("kitty"));
    assert_eq!(w.window_id.as_deref(), Some("12345"));
    assert_eq!(w.pid, Some(777));
    assert_eq!(w.workspace_id, Some(2));
    assert_eq!(w.workspace_name, None);
    assert_eq!(w.is_xwayland, None);
}

#[test]
fn xdotool_parser_requires_a_title() {
    assert!(parse_xdotool_active_window("app_id=kitty\npid=1\n").is_none());
    assert!(parse_xdotool_active_window("").is_none());
    assert!(parse_xdotool_active_window("title=\n").is_none());
}

#[test]
fn xdotool_parser_tolerates_junk() {
    let raw = "noise\nunknown=value\ntitle=ok\npid=not-a-number\n";
    let w = parse_xdotool_active_window(raw).expect("title present");
    assert_eq!(w.title, "ok");
    assert_eq!(w.pid, None, "non-numeric pid becomes absent");
    assert_eq!(w.app_id, None);
}

#[test]
fn command_parser_uses_trimmed_text_as_title() {
    let w = parse_command_active_window("  Browser Window  ").expect("non-blank");
    assert_eq!(w.backend, "command");
    assert_eq!(w.title, "Browser Window");
    assert_eq!(w.app_id, None);
    assert!(parse_command_active_window("   ").is_none());
}

#[test]
fn title_parser_tags_with_given_backend() {
    let w = parse_title_with_backend("custom", "hello").expect("non-blank");
    assert_eq!(w.backend, "custom");
    assert_eq!(w.title, "hello");
}

#[test]
fn hyprctl_parser_reads_structured_fields() {
    let raw = "{\"title\": \" My Terminal \", \"class\": \"kitty\", \"initialClass\": \"kitty0\", \
               \"initialTitle\": \"zsh\", \"address\": \"0x55\", \"pid\": 314, \
               \"workspace\": {\"id\": 4, \"name\": \" web \"}, \"xwayland\": false}";
    let w = parse_hyprctl_active_window(raw).expect("title present");
    assert_eq!(w.backend, "hyprctl");
    assert_eq!(w.title, "My Terminal");
    assert_eq!(w.app_id.as_deref(), Some("kitty"));
    assert_eq!(w.initial_app_id.as_deref(), Some("kitty0"));
    assert_eq!(w.initial_title.as_deref(), Some("zsh"));
    assert_eq!(w.window_id.as_deref(), Some("0x55"));
    assert_eq!(w.pid, Some(314));
    assert_eq!(w.workspace_id, Some(4));
    assert_eq!(w.workspace_name.as_deref(), Some("web"));
    assert_eq!(w.is_xwayland, Some(false));
}

#[test]
fn hyprctl_parser_rejects_blank_or_missing_title() {
    assert!(parse_hyprctl_active_window("{\"class\": \"kitty\"}").is_none());
    assert!(parse_hyprctl_active_window("{\"title\": \"  \"}").is_none());
    assert!(parse_hyprctl_active_window("not json").is_none());
}

#[test]
fn hyprctl_parser_defaults_wrongly_typed_fields_to_absent() {
    let raw = "{\"title\": \"t\", \"class\": 5, \"pid\": \"x\", \"workspace\": 3, \"xwayland\": 1}";
    let w = parse_hyprctl_active_window(raw).expect("title present");
    assert_eq!(w.app_id, None);
    assert_eq!(w.pid, None);
    assert_eq!(w.workspace_id, None);
    assert_eq!(w.is_xwayland, None);
}

#[test]
fn provider_factory_matches_configuration() {
    match provider_from_config(&ActiveWindowBackend::Disabled) {
        ActiveWindowProvider::Disabled(p) => assert!(p.capture().is_none()),
        _ => panic!("expected the disabled provider"),
    }
    match provider_from_config(&ActiveWindowBackend::Command {
        program: "mytool".to_string(),
        args: vec!["--focus".to_string()],
    }) {
        ActiveWindowProvider::Command(c) => {
            assert_eq!(c.program(), "mytool");
            assert_eq!(c.args(), &vec!["--focus".to_string()]);
            let w = c.parse_output(" some title ").expect("title parser");
            assert_eq!(w.backend, "command");
            assert_eq!(w.title, "some title");
        }
        _ => panic!("expected the command provider"),
    }
    match provider_from_config(&ActiveWindowBackend::Auto) {
        ActiveWindowProvider::Auto(_) => {}
        _ => panic!("expected the automatic provider"),
    }
}

#[test]
fn auto_provider_queries_structured_backend_first() {
    let auto = AutoActiveWindowProvider::new();
    let providers = auto.providers();
    assert_eq!(providers.len(), 2);
    assert_eq!(providers[0].program(), "hyprctl");
    assert_eq!(
        providers[0].args(),
        &vec!["activewindow".to_string(), "-j".to_string()]
    );
    assert_eq!(providers[1].program(), "sh");
    let hypr = providers[0]
        .parse_output("{\"title\": \"T\"}")
        .expect("structured output parses");
    assert_eq!(hypr.backend, "hyprctl");
    let xd = providers[1]
        .parse_output("title=T\n")
        .expect("pipeline output parses");
    assert_eq!(xd.backend, "xdotool");
}

#[test]
fn unicode_whitespace_is_trimmed_from_titles() {
    // no-break space and ideographic space count as white space
    let w = parse_command_active_window("\u{a0}\u{3000} Title \u{a0}").expect("non-blank");
    assert_eq!(w.title, "Title");
    assert!(parse_command_active_window("\u{a0}\u{2003}\u{3000}").is_none());
}
