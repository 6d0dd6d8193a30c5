//! Verified core of a store for write-ahead-log segments kept in an S3-style
//! object store.
//!
//! - [`key`]: the segment key strings, whose ascending order is descending
//!   frame order;
//! - [`layout`]: the object keys of a namespace's segments and indexes, and how
//!   the first key of a lookup listing is read;
//! - [`backend`]: the decisions of store, fetch and meta around the object-store
//!   calls, and the parse of an index object;
//! - [`upload`]: the cursor of one attempt at streaming a segment into an
//!   upload body.
pub mod backend;
pub mod error;
pub mod key;
pub mod layout;
pub mod upload;
