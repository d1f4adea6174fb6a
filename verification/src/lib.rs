//! Incremental directory synchronisation: the diff of a local inventory
//! against a remote manifest, the packing of changed files into fixed-size
//! upload chunks, and the decisions around upload and commit.

pub mod assembler;
pub mod chunk_laws;
pub mod content_type;
pub mod diff;
pub mod diff_laws;
pub mod inventory;
pub mod manifest;
pub mod model;
pub mod names;
pub mod orchestrator;
pub mod plan;
pub mod run_laws;
pub mod sequences;
