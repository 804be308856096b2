//! View context lifecycle management for a browser-hosted composition editor.
//!
//! The crate models a registry of independently stateful editor views behind a
//! uniform lifecycle contract (`init`, `cleanup`, `dispose`, `save`), a manager
//! that owns the ordered set of live views and the single active view, and a
//! persistence adapter that round-trips the whole registry through a compact
//! binary encoding wrapped in base64 text.

pub mod b64;
pub mod codec;
pub mod errors;
pub mod manager;
pub mod uuid_text;
pub mod views;
