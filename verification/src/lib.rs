pub mod backfill;
pub mod content;
pub mod cursor;
pub mod engine;
pub mod hashing;
pub mod laws;
pub mod mailbox;
pub mod store;
pub mod types;
pub mod wire;
