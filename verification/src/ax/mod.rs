//! A tree source on the accessibility interface of macOS: what is made of each
//! element, window and notification.

pub mod element;
pub mod names;
pub mod role;
pub mod text;
pub mod geometry;
pub mod attr;
pub mod node;
pub mod walk;
pub mod laws;
pub mod limiter;
pub mod observe;
pub mod actions;
pub mod consumer;
pub mod delta;
pub mod discovery;
pub mod drive;
pub mod opt_in;
pub mod reconcile;
pub mod refresh;
pub mod shape;
pub mod source;
pub mod trust;
