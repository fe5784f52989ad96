//! Decoding of Anchor program events.
//!
//! An IDL tells which events a program emits and how their fields are laid out
//! in Borsh. [`decoder::EventDecoder`] is built from one and turns transaction
//! log lines into the events that they hold, as [`value::Value`]s.
pub mod anchor;
pub mod base58;
pub mod borsh;
pub mod cursor;
pub mod decoder;
pub mod encoding;
pub mod error;
pub mod events;
pub mod guard;
pub mod idl;
pub mod laws;
pub mod locality;
pub mod numbers;
pub mod progress;
pub mod proper;
pub mod steps;
pub mod text;
pub mod value;
pub mod writable;
