//! Bounded-memory sorting of line records by a numeric key, together with two
//! small companions: repair of a PNG header checksum and the rules of a
//! key-press counter.

pub mod chunk;
pub mod crcfix;
pub mod engine;
pub mod keyboard;
pub mod merge;
pub mod order;
pub mod pipeline;
pub mod record;
pub mod resolve;
pub mod sorting;
pub mod text;
