//! Verified core of a comic-archive (CBZ) checker.
//!
//! The library validates locally stored comic archives against a remote
//! catalog: it parses archive filenames, resolves catalog records through a
//! direct search client (with a cache) or through federated search mirrors
//! (with failover), extracts author and year metadata from catalog pages,
//! and checks archive entries for image width, embedded photographic
//! metadata and stored modification dates.

pub mod book;
pub mod catalog;
pub mod digits;
pub mod filename;
pub mod findings;
pub mod inspect;
pub mod mirrors;
pub mod order;
pub mod page;
pub mod text;
