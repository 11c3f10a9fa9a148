//! Tools for the mods of a game whose assets come in archives.
//!
//! The heart of the crate is the load order of the archives. The rule
//! parser and the stable constrained sorter bring a list of mods into an
//! order that honours the rules of their authors. The archive reader and
//! the identity hasher turn the bytes of an archive into the content
//! hashes of its files, and the conflict engine decides, for a load order,
//! which archive's copy of every shared file survives.
//!
//! Around it stand the state of the conflict view, the hierarchy of
//! tweak records with the reader of tweak files, the comparison of two
//! game versions, and the listing of the classes that tweak files declare.

pub mod archive;
pub mod class_files;
pub mod conflict_view;
pub mod conflicts;
pub mod graph;
pub mod hash;
pub mod load_order;
pub mod rules;
pub mod sort;
pub mod text;
pub mod tweak_files;
pub mod tweaks;
pub mod update;
