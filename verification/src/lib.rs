//! A vault of interlinked notes, held as a directed graph.

pub mod builder;
pub mod laws;
pub mod links;
pub mod note;
pub mod vault;
