//! Core of a workspace maintenance tool: a pruning directory walk that finds
//! target-named files under a root, a crash-safe in-place rewrite of the
//! pinned toolchain channel inside toolchain-declaration files, and the
//! mapping from a build profile to the build-output directory to remove.
pub mod command;
pub mod names;
pub mod profile;
pub mod rewrite;
pub mod walk;
