//! Locates IDE project, workspace and package-manifest descriptor paths in a
//! set of filesystem entries and resolves which single path, if any, should be
//! opened automatically.
//!
//! Paths are treated as plain strings of `/`-separated segments; a path's kind
//! (project, workspace, package manifest) is a pure function of its name and
//! extension. The resolution pipeline filters the raw entries, groups the
//! survivors by parent directory, and reduces the result to a [`DirStatus`].

pub mod classify;
pub mod decision;
pub mod display;
pub mod paths;

pub use decision::dir_status;
pub use decision::DirStatus;
