//! The AT-SPI tree source.
//!
//! Mirrors each toplevel frame of the accessibility bus into a tree. Events are
//! hints that something changed, not the truth: structural ones lead to a
//! re-walk, the others to a re-read of the one node they name.

pub mod app_id;
pub mod bridge;
pub mod coalesce;
pub mod drive;
pub mod focus;
pub mod ids;
pub mod invalidate;
pub mod laws;
pub mod mapping;
pub mod mirror;
pub mod node;
pub mod reconcile;
pub mod shown;
pub mod source;
pub mod text;
pub mod vocabulary;
pub mod window;
