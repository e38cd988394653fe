//! A minimal log-structured key-value store.
//!
//! The store keeps an append-only log of textual records, one per line, each
//! holding a key and an encoded payload. `set` and `unset` append records
//! (an `unset` appends a tombstone); `get` replays the whole log and returns
//! the payload of the last record whose key matches. Corrupt records are
//! tolerated until the key they claim is actually queried.
//!
//! The log itself is polymorphic over a [`backing::Backing`] medium (an
//! in-memory buffer is provided; a file-backed medium can implement the same
//! trait), and over a [`codec::StoreValue`] payload codec.

pub mod backing;
pub mod codec;
pub mod error;
pub mod keys;
pub mod laws;
pub mod model;
pub mod scan;
pub mod store;

pub use backing::Backing;
pub use backing::MemBacking;
pub use codec::StoreValue;
pub use error::line_error;
pub use error::read_err;
pub use error::write_err;
pub use error::Error;
pub use keys::split_key_value;
pub use keys::validate_key;
pub use store::Log;
pub use store::Store;
