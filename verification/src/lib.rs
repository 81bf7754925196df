//! Storage core of a minimal record-oriented data engine.
//!
//! Three layers, bottom up: a verified binary codec that turns
//! field/value records into byte payloads and back (`codec`), a pager
//! that owns all pages and hands out sequential page identifiers
//! (`pager`), and a record store that groups pages by table (`storage`).
//! A standalone tokenizer for a query-like input language (`lexer`)
//! sits beside them with no data dependency on storage.

pub mod codec;
pub mod lexer;
pub mod pager;
pub mod storage;
pub mod types;
