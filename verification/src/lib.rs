//! Invoice documents: how invoice directories are named, and how the source
//! documents of an invoice are merged into one.
//!
//! The merge works on object graphs. [`merge::merge`] renumbers the source
//! documents into ranges that do not overlap, builds one graph with one
//! catalog and one pages root, gives each source document a bookmark on its
//! first page, and numbers the objects from one without gaps. What holds of
//! its result is proved in [`shape`] and [`references`], and what
//! renumbering preserves in [`preserved`].
//!
//! Reading and writing documents, running processes and walking directories
//! are left to the caller of this library.

pub mod builder_util;
pub mod document;
pub mod err;
pub mod front;
pub mod gs;
pub mod merge;
pub mod names;
pub mod naming;
pub mod object;
pub mod outline;
pub mod pages;
pub mod preserved;
pub mod references;
pub mod renumber;
pub mod shape;
pub mod sources;
