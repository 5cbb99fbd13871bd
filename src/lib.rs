//! Recursive file discovery: find every entry of a directory tree with a
//! given name, keep those text files that hold a given string, order the
//! results, and render them for output.

pub mod sort;
pub mod text;
pub mod occurrence;
pub mod fs;
pub mod discovery;
pub mod filter;
pub mod path_order;
pub mod strategies;
pub mod find_app;
pub mod ls;
