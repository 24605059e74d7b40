//! The configuration the core consumes: which clipboard backend to use,
//! how to query the active window, and the blacklist, with validation.

use vstd::prelude::*;

use crate::text::{trim_spec, trim_str};

verus! {

/// Selection of the clipboard backend.
#[derive(Debug, Clone, PartialEq, Eq)]
pub enum ClipboardBackend {
    Gtk,
}

/// How the active window is queried: the automatic provider chain, no
/// querying at all, or one user-supplied command.
#[derive(Debug, Clone, PartialEq, Eq)]
pub enum ActiveWindowBackend {
    Auto,
    Disabled,
    Command { program: String, args: Vec<String> },
}

#[derive(Debug, Clone)]
pub struct ActiveWindowConfig {
    pub backend: ActiveWindowBackend,
    pub blacklist: Vec<String>,
}

#[derive(Debug, Clone)]
pub struct ClipboardConfig {
    pub backend: ClipboardBackend,
    pub active_window: ActiveWindowConfig,
}

#[derive(Debug, Clone)]
pub struct AppConfig {
    pub clipboard: ClipboardConfig,
}

/// A configuration together with the path it was read from.
#[derive(Debug, Clone)]
pub struct LoadedConfig {
    pub path: String,
    pub config: AppConfig,
}

impl Default for ClipboardBackend {
    fn default() -> (r: Self)
        ensures
            r is Gtk,
    {
        ClipboardBackend::Gtk
    }
}

impl Default for ActiveWindowBackend {
    fn default() -> (r: Self)
        ensures
            r is Auto,
    {
        ActiveWindowBackend::Auto
    }
}

impl Default for ActiveWindowConfig {
    fn default() -> (r: Self)
        ensures
            r.backend is Auto,
            r.blacklist@.len() == 0,
    {
        ActiveWindowConfig { backend: ActiveWindowBackend::Auto, blacklist: Vec::new() }
    }
}

impl Default for ClipboardConfig {
    fn default() -> (r: Self)
        ensures
            r.backend is Gtk,
            r.active_window.backend is Auto,
            r.active_window.blacklist@.len() == 0,
    {
        ClipboardConfig {
            backend: ClipboardBackend::Gtk,
            active_window: ActiveWindowConfig::default(),
        }
    }
}

impl Default for AppConfig {
    fn default() -> (r: Self)
        ensures
            r.clipboard.backend is Gtk,
            r.clipboard.active_window.backend is Auto,
            r.clipboard.active_window.blacklist@.len() == 0,
    {
        AppConfig { clipboard: ClipboardConfig::default() }
    }
}

/// What configuration validation refuses.
#[derive(Debug, Clone, PartialEq, Eq)]
pub enum ConfigError {
    /// The command backend was chosen with a blank program name.
    EmptyCommandProgram,
    /// A blacklist entry is blank (the index says which).
    BlankBlacklistEntry { index: usize },
}

/// The command backend, if chosen, names a non-blank program.
pub open spec fn command_program_ok(c: ClipboardConfig) -> bool {
    match c.active_window.backend {
        ActiveWindowBackend::Command { program, .. } => trim_spec(program@).len() > 0,
        _ => true,
    }
}

/// Every blacklist entry is non-blank.
pub open spec fn blacklist_ok_to(c: ClipboardConfig, n: int) -> bool {
    forall|i: int| 0 <= i < n ==> trim_spec((#[trigger] c.active_window.blacklist@[i])@).len() > 0
}

pub open spec fn config_valid(c: AppConfig) -> bool {
    command_program_ok(c.clipboard) && blacklist_ok_to(
        c.clipboard,
        c.clipboard.active_window.blacklist@.len() as int,
    )
}

impl ClipboardConfig {
    /// Refuses a blank command program, then the first blank blacklist
    /// entry.
    #[verifier::loop_isolation(false)]
    pub fn validate(&self) -> (r: Result<(), ConfigError>)
        ensures
            r is Ok <==> (command_program_ok(*self) && blacklist_ok_to(
                *self,
                self.active_window.blacklist@.len() as int,
            )),
            match r {
                Ok(_) => true,
                Err(e) => match e {
                    ConfigError::EmptyCommandProgram => !command_program_ok(*self),
                    ConfigError::BlankBlacklistEntry { index } => command_program_ok(*self)
                        && 0 <= index < self.active_window.blacklist@.len() && trim_spec(
                        self.active_window.blacklist@[index as int]@,
                    ).len() == 0 && blacklist_ok_to(*self, index as int),
                },
            },
    {
        match &self.active_window.backend {
            ActiveWindowBackend::Command { program, .. } => {
                let t = trim_str(program.as_str());
                if t.as_str().is_empty() {
                    return Err(ConfigError::EmptyCommandProgram);
                }
            },
            _ => {},
        }
        let n = self.active_window.blacklist.len();
        let mut i: usize = 0;
        while i < n
            invariant
                0 <= i <= n,
                blacklist_ok_to(*self, i as int),
            decreases n - i,
        {
            let t = trim_str(self.active_window.blacklist[i].as_str());
            if t.as_str().is_empty() {
                return Err(ConfigError::BlankBlacklistEntry { index: i });
            }
            i = i + 1;
        }
        Ok(())
    }
}

impl AppConfig {
    /// Checks the configuration the core relies on; see
    /// [`ClipboardConfig::validate`].
    pub fn validate(&self) -> (r: Result<(), ConfigError>)
        ensures
            r is Ok <==> config_valid(*self),
    {
        self.clipboard.validate()
    }
}

} // verus!
