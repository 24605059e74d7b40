//! A clipboard-history core: a bounded, order-preserving, deduplicating
//! history store, a change-detection poller with active-window blacklist
//! suppression, and a stable JSON persistence codec with a
//! backward-compatible load path.

pub mod active_window;
pub mod config;
pub mod json;
pub mod poller;
pub mod state;
pub mod storage;
pub mod text;
