//! Streaming AccessKit trees between machines: the wire protocol and the two
//! tree sources that feed it.
//!
//! [`framing`], [`codec`], [`messages`] and [`session`] are the protocol: length
//! prefixed frames over an arbitrarily chunked byte stream, the message schema,
//! and the handshake state machine.
//!
//! [`atspi`] mirrors the windows of a Linux desktop and [`ax`] those of a Mac.
//! Both keep, for each window, stable node ids and what a consumer already holds,
//! and decide what every signal, walk and request comes to. [`tree`] is what they
//! build, [`source`] what they report. Nothing here reads a bus or a clock: the
//! caller reads, hands in what was read, and does what comes back.
//!
//! [`strings`], [`lines`], [`number`], [`search`] and [`reconcile`] are what the
//! rest is made of.

pub mod atspi;
pub mod ax;
pub mod codec;
pub mod framing;
pub mod lines;
pub mod messages;
pub mod number;
pub mod reconcile;
pub mod search;
pub mod session;
pub mod source;
pub mod strings;
pub mod tree;

pub use vstd::hash_map::StringHashMap;
