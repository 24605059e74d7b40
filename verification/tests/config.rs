use slyboard::config::{
    ActiveWindowBackend, ActiveWindowConfig, AppConfig, ClipboardConfig, ConfigError,
};

#[test]
fn validate_accepts_empty_config() {
    let cfg = AppConfig::default();
    cfg.validate().expect("empty config should be valid");
}

fn config_with(backend: ActiveWindowBackend, blacklist: Vec<String>) -> AppConfig {
    let mut cfg = AppConfig::default();
    cfg.clipboard = ClipboardConfig {
        backend: cfg.clipboard.backend.clone(),
        active_window: ActiveWindowConfig { backend, blacklist },
    };
    cfg
}

#[test]
fn validate_rejects_blank_command_program() {
    let cfg = config_with(
        ActiveWindowBackend::Command {
            program: "   ".to_string(),
            args: vec![],
        },
        vec![],
    );
    assert_eq!(cfg.validate(), Err(ConfigError::EmptyCommandProgram));
}

#[test]
fn validate_rejects_blank_blacklist_entry() {
    let cfg = config_with(
        ActiveWindowBackend::Auto,
        vec!["keepassxc".to_string(), " \t ".to_string()],
    );
    assert_eq!(
        cfg.validate(),
        Err(ConfigError::BlankBlacklistEntry { index: 1 })
    );
}

#[test]
fn validate_accepts_populated_config() {
    let cfg = config_with(
        ActiveWindowBackend::Command {
            program: "hyprctl".to_string(),
            args: vec!["activewindow".to_string()],
        },
        vec!["slack".to_string()],
    );
    assert!(cfg.validate().is_ok());
}
