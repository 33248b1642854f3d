//! A verified index engine for a directory tree of text documents.
//!
//! The library parses the leading metadata block of each document
//! ([`frontmatter`]), derives an in-memory snapshot with tag and title lookup
//! tables ([`index`]), resolves multi-criteria queries against it by set
//! algebra ([`query`]), renders a connector-drawn directory listing
//! ([`tree`]) and tag summaries ([`listing`]), validates and plans read and
//! write operations including the content-merge rule ([`store`]), and reads
//! flexible string lists ([`lists`]). Every function carries a contract
//! proved by Verus; filesystem walking, clock and transport plumbing stay
//! outside and hand the library plain values.

pub mod frontmatter;
pub mod index;
pub mod listing;
pub mod lists;
pub mod query;
pub mod store;
pub mod text;
pub mod tree;
