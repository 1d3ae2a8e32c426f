//! A content-addressable, versioned object store for filesystem trees.
//!
//! Objects (file content, directory metadata, directory trees, commits) are
//! immutable and addressed by the SHA-256 digest of their canonical encoding.
//! A mutable staging tree is assembled in memory, frozen into immutable tree
//! objects, and published under a named ref inside a transaction that makes a
//! whole batch of writes visible atomically.

pub mod checksum;
pub mod codec;
pub mod digest;
pub mod error;
pub mod freeze;
pub mod laws;
pub mod object_details;
pub mod repo;
pub mod text;
pub mod traverse;
pub mod tree;
pub mod util;

pub use checksum::Checksum;
pub use checksum::ObjectName;
pub use checksum::ObjectType;
pub use error::StoreError;
