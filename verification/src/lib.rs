//! Validation engine for database extension upgrade scripts.
//!
//! Two snapshots of an extension's catalog objects — one taken after a direct
//! installation of the target version, one taken after an incremental upgrade —
//! are modelled as trees of comparable values.  The engine computes a deep,
//! structured difference between the two trees and renders any mismatch as an
//! indented, human-readable report.

pub mod assoc;
pub mod compare;
pub mod extension;
pub mod laws;
pub mod pgdiff;
pub mod pgtype;
pub mod schema;
pub mod text;
pub mod unified;

pub use pgdiff::{DiffSource, SchemaDiff};
