//! Data source for a status-bar widget on the niri compositor: an
//! event-driven window state store, an icon resolution and caching engine,
//! and a snapshot assembler that turns the current window list into one
//! JSON document per processed event.
pub mod cache;
pub mod config;
pub mod icons;
pub mod json;
pub mod snapshot;
pub mod state;
pub mod text;
