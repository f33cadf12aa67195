//! Repointing of symlinks whose targets fall under an old path prefix so
//! that they point under a new prefix instead.
//!
//! The crate models link targets as sequences of path components and proves
//! the rewrite rules over that model: prefix matching is component-wise,
//! a link is only repointed when the corresponding path already exists on
//! the destination side, and the replacement protocol (create a temporary
//! link, sync, rename over the original, sync) never exposes a missing or
//! broken name to a concurrent reader.

pub mod paths;
pub mod protocol;
pub mod rewrite;
pub mod traverse;
