//! Incremental build planning for machine-image artifacts, and the host side of
//! the plugin interface.
//!
//! A project's documents (`model`) are gathered (`project`) and checked
//! (`validate`). Each record has a 64-bit digest of its canonical encoding
//! (`value`, `model`, `hash`); comparing digests with those of the last run
//! (`cache`) finds the dirty builds, whose dependents are dirty too, and the
//! dirty builds are laid out in layers (`graph`, `plan`). `laws` states what holds
//! across runs and of every plan. `plugin` holds the marshalling and the tables
//! behind the C interface that plugins export.

pub mod float;
pub mod value;
pub mod text;
pub mod util;
pub mod model;
pub mod hash;
pub mod project;
pub mod validate;
pub mod cache;
pub mod graph;
pub mod plan;
pub mod plugin;
pub mod laws;

pub use float::CmpFloat;
