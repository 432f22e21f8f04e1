//! Core of a dotfile bootstrapper: resolving interdependent environment
//! variables to a fixed point, and reconciling a source directory tree into a
//! target tree of symbolic links, displacing existing content into a backup
//! tree instead of deleting it.

pub mod env;
pub mod generate;
pub mod tasks;
