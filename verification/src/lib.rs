//! Turns Maven `dependency:tree` report lines into the on-disk paths of the
//! jar files they name inside a local repository cache, and decides, for each
//! resolved jar, whether it should be copied into a destination directory.
//!
//! The parsing and path-resolution logic is verified; reading the report file
//! and touching the file system are left to the surrounding program.

pub mod copier;
pub mod parser;
