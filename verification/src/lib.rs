//! Pairs RAW camera files with their renamed JPG siblings in one directory
//! and plans the renames that give each RAW file its sibling's base name
//! while keeping its own extension.
//!
//! The engine works on plain directory listings: the caller reads the
//! directory, reports each entry, carries out the planned renames, and
//! checks that a target name is free before each one.
pub mod engine;
pub mod filename;
pub mod laws;
pub mod order;
pub mod scan;
