//! Finds the largest files or folders below a set of directories, and writes lists of them out.
//!
//! The library decides and computes; reading directories, showing windows and writing files is
//! left to whoever uses it.

pub mod commands;
pub mod context;
pub mod control;
pub mod export;
pub mod item;
pub mod metadata;
pub mod rank;
pub mod roots;
pub mod scan;
pub mod step_laws;
pub mod table_laws;
pub mod text;
pub mod tree;
