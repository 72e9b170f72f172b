//! Memo lifecycle and ordered hot-stack manager.
//!
//! Memos move through a small lifecycle (`Hot`, `Cold`, `Done`, `Delayed`).
//! A bounded, ordered "hot stack" holds the identifiers of the currently
//! actionable memos; pushing beyond its capacity evicts the least recently
//! promoted memo to the archive. Delayed memos are promoted once their
//! ready time has passed. All state transitions, the search and ordering
//! rules, and the persistence codec are verified.

pub mod board;
pub mod clock;
pub mod laws;
pub mod models;
pub mod search;
pub mod storage;
pub mod text;
