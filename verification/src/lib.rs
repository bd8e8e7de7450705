//! A queryable index over a resolved Cargo-style package metadata snapshot.
//!
//! The index decides which packages and build targets are publicly visible,
//! resolves per-target dependencies (merging declared platform conditions with
//! the resolved graph edges), cross-validates an auxiliary ownership table,
//! and offers exact-match lookup into a sorted lockfile.

pub mod cargo;
pub mod index;
pub mod lockfile;
pub mod platform;
pub mod strutil;
