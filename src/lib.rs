//! Tells whether a game resource differs from its unmodified version, and turns the
//! paths that platforms and loaders use into canonical resource paths.
pub mod canon;
pub mod hashes;

pub use canon::{get_canon_name, get_canon_name_without_root};
pub use hashes::{get_hash_table, Platform, StockHashTable};
