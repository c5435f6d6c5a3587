//! A value-tree engine for cascading configuration files: deep merge,
//! flattening into dotted paths, template resolution and path mutation.

pub mod value;
pub mod merge;
pub mod flatten;
pub mod mutate;
pub mod template;
pub mod commands;
pub mod laws;
