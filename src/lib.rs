//! Instantiates a project from a template tree: rewrites the template's
//! identity (class name, namespace, display name) in file contents, then
//! plans the renames of files and directories whose names carry it.

pub mod identity;
pub mod replace;
pub mod content;
pub mod plan;
