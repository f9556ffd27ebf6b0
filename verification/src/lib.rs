//! An incremental tabular dataset engine.
//!
//! The crate owns immutable record stores loaded from delimited text, keeps
//! one independent view (filter term, sort choice, column visibility) per
//! open tab, computes filtered and sorted row index sequences for each view,
//! caches those results under `(dataset, view)` keys while discarding stale
//! ones, and serves bounded row windows to a virtualized renderer.

pub mod engine;
pub mod numeric;
pub mod registry;
pub mod session;
pub mod state;
pub mod store;
pub mod text;
pub mod types;
pub mod view;
pub mod window;
