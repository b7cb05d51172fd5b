//! Persistent storage and classification core for maternal health records.
//!
//! - `classify`: pregnancy stage from a delivery date, health status from vitals and symptoms.
//! - `text`: substring search and decimal integers over characters.
//! - `codec`, `records`: the bounded binary form of stored profiles and records.
//! - `stable`: the stable-memory regions, counter cell and sorted byte maps.
//! - `store`: identifiers, profile and record storage, and the queries over them.
pub mod classify;
pub mod text;
pub mod codec;
pub mod records;
pub mod stable;
pub mod store;
