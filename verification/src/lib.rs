//! In-memory store for a single athletic competition, together with a
//! verified textual codec for persisting the competition document.
//!
//! The store owns the roster of competitors and their recorded results
//! (pole-vault attempts, sprint and climbing times, jump and shot-put
//! attempts) and enforces the business rules that govern recording a new
//! result: the pole-vault elimination rule, per-discipline attempt caps,
//! and the discipline-category gate.  The codec renders the whole
//! document as deterministic JSON text and parses it back; decoding an
//! encoded document is proved to reproduce the original value.
//!
//! Measurements (heights, distances, times) are fixed-point values in
//! hundredths of a unit, so `200` stands for 2.00 m or 2.00 s.

pub mod error;
pub mod model;
pub mod num;
pub mod store;
pub mod codec;
