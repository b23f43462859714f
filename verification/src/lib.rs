//! A recursive, caching DNS resolver library.
//!
//! The crate covers the DNS wire-format codec (packet parse and serialize,
//! including name-compression pointers), the iterative resolution state
//! machine, and the TTL-based cache layer. Socket and database plumbing
//! live outside the library and hand it plain values.

pub mod addrs;
pub mod buffer;
pub mod cache;
pub mod errors;
pub mod handler;
pub mod header;
pub mod packet;
pub mod records;
pub mod resolver;
pub mod text;
