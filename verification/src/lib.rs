//! A task runner driven by a structured definition of named targets.
//!
//! A definition is a tree of targets: groups that hold sub-targets, and
//! command targets that hold shell commands and name the targets they
//! depend on. The library flattens the tree into a registry addressed by
//! dotted canonical names, resolves the declared dependencies against that
//! registry, and lays out the run of a target: the commands of its
//! dependencies in the declared order, then its own.
//!
//! The library performs no input or output. Its caller reads the
//! definition, invokes each command that a run asks for, and reports how
//! the command ended; the run then says what to do next.

pub mod args;
pub mod error;
pub mod execution;
pub mod flatten;
pub mod laws;
pub mod name_map;
pub mod paths;
pub mod resolve;
pub mod target;
pub mod text;
pub mod yake;
