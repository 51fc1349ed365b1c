//! A verified read-only decoder and query engine for the single-file paginated
//! database format used by a well-known embedded relational database.
//!
//! The library works on an in-memory image of the database file: fixed-size
//! pages hold self-describing B-tree nodes, each node holds variable-length
//! cells, and each cell holds a variable-length-encoded record. The modules
//! follow the format's own layering:
//!
//! - [`codec`]: big-endian fixed-width integers and the format's varint.
//! - [`errors`]: the failure kinds shared by every decoder and traversal.
//! - [`header`]: the 100-byte file header and its validation.
//! - [`record`]: record payloads, typed column values, and their ordering.
//! - [`page`]: page headers, cells, and the four B-tree page kinds.
//! - [`btree`]: table scan, point lookup, batched lookup, and index lookup.

pub mod btree;
pub mod codec;
pub mod errors;
pub mod header;
pub mod laws;
pub mod page;
pub mod record;
