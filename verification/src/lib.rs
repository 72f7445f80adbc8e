//! Core of a package manager for the JavaScript ecosystem: version
//! specifiers, a pinned dependency graph with a persisted lockfile, a
//! hoisted installation planner, and models of the store, installer and
//! memoization cache that the surrounding tooling drives.

pub mod config;
pub mod kmap;
pub mod strutil;
pub mod util;
pub mod version;
pub mod package;
pub mod errors;
pub mod manifest;
pub mod memo;
pub mod paths;
pub mod plan;
pub mod progress;
pub mod registry;
pub mod resolve;
pub mod semver;
pub mod store;
pub mod tree;
pub mod specifier;
