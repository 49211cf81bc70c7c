//! Time-windowed chat-log replay engine with a session-scoped cursor cache.
//!
//! The library owns the logic of replaying a chronologically sorted,
//! append-only chat log in arbitrary closed time windows: incremental
//! forward scanning with a one-item lookahead, a generic sorted-sequence
//! merge, and a session cache that maps opaque tokens to reusable log
//! cursors and evicts idle entries.  All instants are UTC epoch
//! milliseconds; payloads are carried as opaque serialized text.

pub mod cache;
pub mod cursor;
pub mod item;
pub mod merge;
pub mod parse;
pub mod text;
pub mod types;

pub use cache::SessionCache;
pub use cursor::LogCursor;
pub use item::Item;
pub use merge::merge;
